//! Keyset pagination shared by both searches: the page plan, the ordered
//! bounded window of rows, and the connection built from it.
use vstd::prelude::*;
use crate::cursor::{cursor_number, cursor_text, decode_cursor, encode_cursor, is_cursor};
use crate::ingest::opt_view;

verus! {

/// The page size used when no pagination argument is given.
pub const DEFAULT_PAGE_SIZE: i32 = 10;

/// Which value orders results and is written into cursors.
#[derive(Clone, Copy, PartialEq, Eq, Structural, Debug)]
pub enum OrderBy {
    /// The global log sequence; always present and unique.
    Received,
    /// The author-claimed time; an absent value orders as zero.
    Asserted,
}

/// Which messages a search looks at.
#[derive(Clone, Copy, PartialEq, Eq, Structural, Debug)]
pub enum Privacy {
    /// Only messages that were never encrypted.
    Public,
    /// Only messages that were decrypted.
    Private,
    All,
}

/// Why a search was refused.
#[derive(Clone, Copy, PartialEq, Eq, Structural, Debug)]
pub enum QueryError {
    /// `before` and `after` were both given.
    BothCursors,
    /// The pagination arguments do not form one of the accepted shapes.
    BadCombination,
    /// A cursor is not the text of an ordering value.
    MalformedCursor,
    /// A page size is negative.
    NegativePageSize,
    /// The query is one that is not built.
    NotImplemented,
}

/// A candidate result: a message key with both of its ordering values.
#[derive(Clone, Copy, PartialEq, Eq, Structural, Debug)]
pub struct Row {
    pub key_id: i32,
    pub flume_seq: i64,
    pub asserted: i64,
}

/// How far from a cursor the rows of a page lie.
#[derive(Clone, Copy, PartialEq, Eq, Structural, Debug)]
pub enum Bound {
    Unbounded,
    /// Ordering value strictly below the cursor's.
    Below(i64),
    /// Ordering value strictly above the cursor's.
    Above(i64),
}

/// The window that the pagination arguments ask for.
#[derive(Clone, Copy, PartialEq, Eq, Structural, Debug)]
pub struct PagePlan {
    pub bound: Bound,
    /// Newest first when true, oldest first otherwise.
    pub descending: bool,
    pub limit: usize,
}

/// Start and end cursors of a page, and whether more rows lie beyond it.
pub struct PageInfo {
    pub start_cursor: Option<String>,
    pub end_cursor: Option<String>,
    pub has_next_page: bool,
    pub has_previous_page: bool,
}

impl OrderBy {
    /// The ordering value of a row.
    pub open spec fn key(self, r: Row) -> i64 {
        match self {
            OrderBy::Received => r.flume_seq,
            OrderBy::Asserted => r.asserted,
        }
    }

    pub fn key_of(&self, r: &Row) -> (k: i64)
        ensures
            k == self.key(*r),
    {
        match self {
            OrderBy::Received => r.flume_seq,
            OrderBy::Asserted => r.asserted,
        }
    }
}

pub open spec fn privacy_ok(p: Privacy, is_decrypted: bool) -> bool {
    match p {
        Privacy::Public => !is_decrypted,
        Privacy::Private => is_decrypted,
        Privacy::All => true,
    }
}

pub fn privacy_allows(p: Privacy, is_decrypted: bool) -> (r: bool)
    ensures
        r == privacy_ok(p, is_decrypted),
{
    match p {
        Privacy::Public => !is_decrypted,
        Privacy::Private => is_decrypted,
        Privacy::All => true,
    }
}

pub open spec fn in_bound(b: Bound, k: i64) -> bool {
    match b {
        Bound::Unbounded => true,
        Bound::Below(c) => k < c,
        Bound::Above(c) => k > c,
    }
}

pub fn bound_holds(b: Bound, k: i64) -> (r: bool)
    ensures
        r == in_bound(b, k),
{
    match b {
        Bound::Unbounded => true,
        Bound::Below(c) => k < c,
        Bound::Above(c) => k > c,
    }
}

/// The plan for a keyset pagination request, or why it is refused.
pub open spec fn page_plan(
    before: Option<Seq<char>>,
    after: Option<Seq<char>>,
    last: Option<i32>,
    first: Option<i32>,
) -> Result<PagePlan, QueryError> {
    if before is Some && after is Some {
        Err(QueryError::BothCursors)
    } else if before is Some && last is Some && first is None {
        let b = before->Some_0;
        let l = last->Some_0;
        if !is_cursor(b) {
            Err(QueryError::MalformedCursor)
        } else if l < 0 {
            Err(QueryError::NegativePageSize)
        } else {
            Ok(
                PagePlan {
                    bound: Bound::Below(cursor_number(b) as i64),
                    descending: true,
                    limit: l as usize
                },
            )
        }
    } else if after is Some && last is None && first is Some {
        let a = after->Some_0;
        let f = first->Some_0;
        if !is_cursor(a) {
            Err(QueryError::MalformedCursor)
        } else if f < 0 {
            Err(QueryError::NegativePageSize)
        } else {
            Ok(
                PagePlan {
                    bound: Bound::Above(cursor_number(a) as i64),
                    descending: false,
                    limit: f as usize
                },
            )
        }
    } else if before is None && after is None && last is Some && first is None {
        let l = last->Some_0;
        if l < 0 {
            Err(QueryError::NegativePageSize)
        } else {
            Ok(
                PagePlan {
                    bound: Bound::Unbounded,
                    descending: true,
                    limit: l as usize
                },
            )
        }
    } else if before is None && after is None && last is None && first is Some {
        let f = first->Some_0;
        if f < 0 {
            Err(QueryError::NegativePageSize)
        } else {
            Ok(
                PagePlan {
                    bound: Bound::Above(0),
                    descending: false,
                    limit: f as usize
                },
            )
        }
    } else if before is None && after is None && last is None && first is None {
        Ok(
            PagePlan {
                bound: Bound::Unbounded,
                descending: true,
                limit: DEFAULT_PAGE_SIZE as usize
            },
        )
    } else {
        Err(QueryError::BadCombination)
    }
}

fn decode_or_fail(s: &String) -> (r: Result<i64, QueryError>)
    ensures
        is_cursor(s@) ==> (r matches Ok(v) && v as int == cursor_number(s@)),
        !is_cursor(s@) ==> r == Err::<i64, QueryError>(QueryError::MalformedCursor),
{
    match decode_cursor(s.as_str()) {
        Some(v) => Ok(v),
        None => Err(QueryError::MalformedCursor),
    }
}

/// Checks the pagination arguments and turns them into a page plan.
pub fn plan_page(
    before: &Option<String>,
    after: &Option<String>,
    last: Option<i32>,
    first: Option<i32>,
) -> (r: Result<PagePlan, QueryError>)
    ensures
        r == page_plan(opt_view(*before), opt_view(*after), last, first),
{
    match (before, after, last, first) {
        (Some(_), Some(_), _, _) => Err(QueryError::BothCursors),
        (Some(b), None, Some(l), None) => {
            let c = decode_or_fail(b)?;
            if l < 0 {
                return Err(QueryError::NegativePageSize);
            }
            Ok(PagePlan { bound: Bound::Below(c), descending: true, limit: l as usize })
        },
        (None, Some(a), None, Some(f)) => {
            let c = decode_or_fail(a)?;
            if f < 0 {
                return Err(QueryError::NegativePageSize);
            }
            Ok(PagePlan { bound: Bound::Above(c), descending: false, limit: f as usize })
        },
        (None, None, Some(l), None) => {
            if l < 0 {
                return Err(QueryError::NegativePageSize);
            }
            Ok(PagePlan { bound: Bound::Unbounded, descending: true, limit: l as usize })
        },
        (None, None, None, Some(f)) => {
            if f < 0 {
                return Err(QueryError::NegativePageSize);
            }
            Ok(PagePlan { bound: Bound::Above(0), descending: false, limit: f as usize })
        },
        (None, None, None, None) => Ok(
            PagePlan {
                bound: Bound::Unbounded,
                descending: true,
                limit: DEFAULT_PAGE_SIZE as usize
            },
        ),
        _ => Err(QueryError::BadCombination),
    }
}

/// `a` comes before `b` on a page ordered by `ord`, newest first when `desc`.
/// Rows with equal ordering values are told apart by their log sequence.
pub open spec fn ahead(ord: OrderBy, desc: bool, a: Row, b: Row) -> bool {
    if desc {
        ord.key(a) > ord.key(b) || (ord.key(a) == ord.key(b) && a.flume_seq > b.flume_seq)
    } else {
        ord.key(a) < ord.key(b) || (ord.key(a) == ord.key(b) && a.flume_seq < b.flume_seq)
    }
}

fn ahead_exec(ord: OrderBy, desc: bool, a: &Row, b: &Row) -> (r: bool)
    ensures
        r == ahead(ord, desc, *a, *b),
{
    let ka = ord.key_of(a);
    let kb = ord.key_of(b);
    if desc {
        ka > kb || (ka == kb && a.flume_seq > b.flume_seq)
    } else {
        ka < kb || (ka == kb && a.flume_seq < b.flume_seq)
    }
}

pub open spec fn distinct_seqs(s: Seq<Row>) -> bool {
    forall|i: int, j: int| 0 <= i < j < s.len() ==> s[i].flume_seq != s[j].flume_seq
}

/// `w` is the page of at most `limit` rows taken from the front of `cands` in
/// the order `ahead(ord, desc, ..)`, and `more` tells whether `cands` holds rows
/// beyond it.
pub open spec fn window_ok(
    cands: Seq<Row>,
    ord: OrderBy,
    desc: bool,
    limit: nat,
    w: Seq<Row>,
    more: bool,
) -> bool {
    &&& w.len() <= limit
    &&& forall|i: int| 0 <= i < w.len() ==> cands.contains(#[trigger] w[i])
    &&& forall|i: int, j: int| 0 <= i < j < w.len() ==> ahead(ord, desc, #[trigger] w[i], #[trigger] w[j])
    &&& forall|c: Row|
        #![trigger cands.contains(c)]
        cands.contains(c) && !w.contains(c) ==> w.len() == limit && (w.len() > 0 ==> ahead(
            ord,
            desc,
            w.last(),
            c,
        ))
    &&& more == exists|c: Row| #![trigger cands.contains(c)] cands.contains(c) && !w.contains(c)
}

/// No two rows share a key id.
pub open spec fn distinct_keys(s: Seq<Row>) -> bool {
    forall|i: int, j: int| 0 <= i < j < s.len() ==> s[i].key_id != s[j].key_id
}

/// A page taken from rows with distinct key ids has distinct key ids.
pub proof fn lemma_window_keys_distinct(
    cands: Seq<Row>,
    ord: OrderBy,
    desc: bool,
    limit: nat,
    w: Seq<Row>,
    more: bool,
)
    requires
        window_ok(cands, ord, desc, limit, w, more),
        distinct_keys(cands),
    ensures
        distinct_keys(w),
{
    assert forall|i: int, j: int| 0 <= i < j < w.len() implies w[i].key_id != w[j].key_id by {
        assert(ahead(ord, desc, w[i], w[j]));
        lemma_ahead_order(ord, desc, w[i], w[i], w[i]);
        assert(cands.contains(w[i]));
        assert(cands.contains(w[j]));
        let a = choose|a: int| 0 <= a < cands.len() && cands[a] == w[i];
        let b = choose|b: int| 0 <= b < cands.len() && cands[b] == w[j];
        assert(a != b);
        if a < b {
            assert(cands[a].key_id != cands[b].key_id);
        } else {
            assert(cands[b].key_id != cands[a].key_id);
        }
    }
}

/// Rows that may still come after the page `w`.
pub open spec fn eligible(ord: OrderBy, desc: bool, w: Seq<Row>, c: Row) -> bool {
    w.len() == 0 || ahead(ord, desc, w.last(), c)
}

proof fn lemma_ahead_order(ord: OrderBy, desc: bool, a: Row, b: Row, c: Row)
    ensures
        !ahead(ord, desc, a, a),
        ahead(ord, desc, a, b) ==> !ahead(ord, desc, b, a),
        ahead(ord, desc, a, b) && ahead(ord, desc, b, c) ==> ahead(ord, desc, a, c),
        a.flume_seq != b.flume_seq ==> ahead(ord, desc, a, b) || ahead(ord, desc, b, a),
{
}

/// Takes the page of at most `limit` rows from `cands`, in page order.
pub fn select_window(cands: &Vec<Row>, ord: OrderBy, desc: bool, limit: usize) -> (res: (
    Vec<Row>,
    bool,
))
    requires
        distinct_seqs(cands@),
    ensures
        window_ok(cands@, ord, desc, limit as nat, res.0@, res.1),
{
    let mut w: Vec<Row> = Vec::new();
    let mut exhausted = false;
    while w.len() < limit && !exhausted
        invariant
            distinct_seqs(cands@),
            w@.len() <= limit,
            forall|i: int| 0 <= i < w@.len() ==> cands@.contains(#[trigger] w@[i]),
            forall|i: int, j: int|
                0 <= i < j < w@.len() ==> ahead(ord, desc, #[trigger] w@[i], #[trigger] w@[j]),
            forall|c: Row|
                #![trigger cands@.contains(c)]
                cands@.contains(c) && !w@.contains(c) ==> eligible(ord, desc, w@, c),
            exhausted ==> forall|c: Row| #![trigger cands@.contains(c)] cands@.contains(c) ==> w@.contains(c),
        decreases limit - w@.len() + (if exhausted { 0int } else { 1int }),
    {
        let mut best: Option<usize> = None;
        let mut j: usize = 0;
        while j < cands.len()
            invariant
                j <= cands@.len(),
                best matches Some(b) ==> b < j && eligible(ord, desc, w@, cands@[b as int]),
                best matches Some(b) ==> forall|k: int|
                    0 <= k < j && eligible(ord, desc, w@, #[trigger] cands@[k]) ==> !ahead(
                        ord,
                        desc,
                        cands@[k],
                        cands@[b as int],
                    ),
                best is None ==> forall|k: int|
                    0 <= k < j ==> !eligible(ord, desc, w@, #[trigger] cands@[k]),
            decreases cands@.len() - j,
        {
            let c = cands[j];
            let elig = w.len() == 0 || ahead_exec(ord, desc, &w[w.len() - 1], &c);
            if elig {
                match best {
                    None => {
                        best = Some(j);
                    },
                    Some(b) => {
                        if ahead_exec(ord, desc, &c, &cands[b]) {
                            proof {
                                assert forall|k: int|
                                    0 <= k < j + 1 && eligible(
                                        ord,
                                        desc,
                                        w@,
                                        #[trigger] cands@[k],
                                    ) implies !ahead(ord, desc, cands@[k], c) by {
                                    lemma_ahead_order(ord, desc, cands@[k], c, cands@[b as int]);
                                    lemma_ahead_order(ord, desc, c, cands@[b as int], cands@[k]);
                                    if k < j {
                                        lemma_ahead_order(ord, desc, cands@[k], cands@[b as int], c);
                                    } else {
                                        lemma_ahead_order(ord, desc, c, c, c);
                                    }
                                }
                            }
                            best = Some(j);
                        }
                    },
                }
            }
            j = j + 1;
        }
        match best {
            None => {
                proof {
                    assert forall|c: Row| #![trigger cands@.contains(c)] cands@.contains(c) implies w@.contains(c) by {
                        if !w@.contains(c) {
                            let k = choose|k: int| 0 <= k < cands@.len() && cands@[k] == c;
                            assert(!eligible(ord, desc, w@, cands@[k]));
                        }
                    }
                }
                exhausted = true;
            },
            Some(b) => {
                let p = cands[b];
                let ghost old_w = w@;
                w.push(p);
                proof {
                    assert forall|i: int| 0 <= i < w@.len() implies cands@.contains(#[trigger] w@[i]) by {
                        if i < old_w.len() {
                            assert(w@[i] == old_w[i]);
                        } else {
                            assert(cands@[b as int] == p);
                        }
                    }
                    assert forall|i: int, j2: int| 0 <= i < j2 < w@.len() implies ahead(
                        ord,
                        desc,
                        #[trigger] w@[i],
                        #[trigger] w@[j2],
                    ) by {
                        assert(w@[i] == old_w[i]);
                        if j2 < old_w.len() {
                            assert(w@[j2] == old_w[j2]);
                        } else {
                            assert(w@[j2] == p);
                            if i < old_w.len() - 1 {
                                lemma_ahead_order(ord, desc, old_w[i], old_w.last(), p);
                            }
                        }
                    }
                    assert forall|c: Row| #![trigger cands@.contains(c)] cands@.contains(c) && !w@.contains(
                        c,
                    ) implies eligible(ord, desc, w@, c) by {
                        assert(!old_w.contains(c)) by {
                            if old_w.contains(c) {
                                let i = choose|i: int| 0 <= i < old_w.len() && old_w[i] == c;
                                assert(w@[i] == c);
                            }
                        }
                        assert(c != p) by {
                            assert(w@[old_w.len() as int] == p);
                        }
                        let k = choose|k: int| 0 <= k < cands@.len() && cands@[k] == c;
                        assert(eligible(ord, desc, old_w, cands@[k]));
                        assert(!ahead(ord, desc, cands@[k], cands@[b as int]));
                        assert(k != b);
                        assert(cands@[k].flume_seq != cands@[b as int].flume_seq);
                        lemma_ahead_order(ord, desc, c, p, c);
                        assert(w@.last() == p);
                    }
                }
            },
        }
    }
    let mut more = false;
    if w.len() == limit {
        let mut j: usize = 0;
        while j < cands.len()
            invariant
                j <= cands@.len(),
                more ==> exists|k: int| 0 <= k < cands@.len() && eligible(ord, desc, w@, #[trigger] cands@[k]),
                !more ==> forall|k: int| 0 <= k < j ==> !eligible(ord, desc, w@, #[trigger] cands@[k]),
            decreases cands@.len() - j,
        {
            let c = cands[j];
            if w.len() == 0 || ahead_exec(ord, desc, &w[w.len() - 1], &c) {
                more = true;
            }
            j = j + 1;
        }
    }
    proof {
        if more {
            let k = choose|k: int| 0 <= k < cands@.len() && eligible(ord, desc, w@, #[trigger] cands@[k]);
            let c = cands@[k];
            assert(cands@.contains(c));
            assert(!w@.contains(c)) by {
                if w@.contains(c) {
                    let i = choose|i: int| 0 <= i < w@.len() && w@[i] == c;
                    if i < w@.len() - 1 {
                        lemma_ahead_order(ord, desc, w@[i], w@.last(), w@[i]);
                    } else {
                        lemma_ahead_order(ord, desc, c, c, c);
                    }
                }
            }
        } else {
            assert forall|c: Row| #![trigger cands@.contains(c)] cands@.contains(c) implies w@.contains(c) by {
                if !w@.contains(c) {
                    let k = choose|k: int| 0 <= k < cands@.len() && cands@[k] == c;
                    assert(eligible(ord, desc, w@, cands@[k]));
                }
            }
        }
    }
    (w, more)
}

/// The edges of a page: each row's key id with the cursor of its ordering value.
pub open spec fn edges_for(ord: OrderBy, w: Seq<Row>, edges: Seq<(i32, String)>) -> bool {
    &&& edges.len() == w.len()
    &&& forall|i: int|
        0 <= i < w.len() ==> (#[trigger] edges[i]).0 == w[i].key_id && edges[i].1@ == cursor_text(
            ord.key(w[i]) as int,
        )
}

/// The page info of the page `w` taken under `plan`. Each flag tells whether
/// the filtered rows, taken without the cursor's bound, extend past the page on
/// its side: `more` for rows after the page in its own order, `outside` for
/// rows that the cursor's bound left out, which all come before the page.
pub open spec fn page_info_for(
    ord: OrderBy,
    plan: PagePlan,
    w: Seq<Row>,
    more: bool,
    outside: bool,
    info: PageInfo,
) -> bool {
    &&& w.len() == 0 ==> info.start_cursor is None && info.end_cursor is None
    &&& w.len() > 0 ==> (info.start_cursor matches Some(c) && c@ == cursor_text(
        ord.key(w[0]) as int,
    ))
    &&& w.len() > 0 ==> (info.end_cursor matches Some(c) && c@ == cursor_text(
        ord.key(w.last()) as int,
    ))
    &&& info.has_next_page == if plan.descending {
        outside
    } else {
        more
    }
    &&& info.has_previous_page == if plan.descending {
        more
    } else {
        outside
    }
}

/// The cursor of the first row, if there is one.
pub fn get_start_cursor(results: &Vec<Row>, order_by: &OrderBy) -> (r: Option<String>)
    ensures
        results@.len() == 0 ==> r is None,
        results@.len() > 0 ==> (r matches Some(c) && c@ == cursor_text(
            order_by.key(results@[0]) as int,
        )),
{
    if results.len() == 0 {
        None
    } else {
        Some(encode_cursor(order_by.key_of(&results[0])))
    }
}

/// The cursor of the last row, if there is one.
pub fn get_end_cursor(results: &Vec<Row>, order_by: &OrderBy) -> (r: Option<String>)
    ensures
        results@.len() == 0 ==> r is None,
        results@.len() > 0 ==> (r matches Some(c) && c@ == cursor_text(
            order_by.key(results@.last()) as int,
        )),
{
    if results.len() == 0 {
        None
    } else {
        Some(encode_cursor(order_by.key_of(&results[results.len() - 1])))
    }
}

/// The edges of a page, in page order.
pub fn page_edges(results: &Vec<Row>, order_by: OrderBy) -> (r: Vec<(i32, String)>)
    ensures
        edges_for(order_by, results@, r@),
{
    let mut edges: Vec<(i32, String)> = Vec::new();
    let mut i: usize = 0;
    while i < results.len()
        invariant
            i <= results@.len(),
            edges@.len() == i,
            forall|k: int|
                0 <= k < i ==> (#[trigger] edges@[k]).0 == results@[k].key_id && edges@[k].1@
                    == cursor_text(order_by.key(results@[k]) as int),
        decreases results@.len() - i,
    {
        let row = results[i];
        edges.push((row.key_id, encode_cursor(order_by.key_of(&row))));
        i = i + 1;
    }
    edges
}

/// The page info of a page taken under `plan`.
pub fn page_info(
    results: &Vec<Row>,
    order_by: OrderBy,
    plan: PagePlan,
    more: bool,
    outside: bool,
) -> (r: PageInfo)
    ensures
        page_info_for(order_by, plan, results@, more, outside, r),
{
    PageInfo {
        start_cursor: get_start_cursor(results, &order_by),
        end_cursor: get_end_cursor(results, &order_by),
        has_next_page: if plan.descending { outside } else { more },
        has_previous_page: if plan.descending { more } else { outside },
    }
}

} // verus!
