//! The sets that search selectors are built from: authors named in a list,
//! authors they follow, threads with replies by some authors, and messages
//! that mention some authors.
use vstd::prelude::*;
use crate::index::{names, position_of, Index, Message, FOLLOWING};
use crate::page::Row;

verus! {

/// The authors whose public identifier is in `list`.
pub open spec fn named(idx: &Index, list: Seq<Seq<char>>) -> spec_fn(i32) -> bool {
    |id: i32| 1 <= id <= idx.authors@.len() && list.contains(idx.authors@[id - 1]@)
}

/// The authors that some author of `who` actively follows.
pub open spec fn follows(idx: &Index, who: spec_fn(i32) -> bool) -> spec_fn(i32) -> bool {
    |id: i32|
        exists|i: int|
            0 <= i < idx.contacts@.len() && (#[trigger] idx.contacts@[i]).contact_author_id == id
                && idx.contacts@[i].state == FOLLOWING && who(idx.contacts@[i].author_id)
}

/// The thread rooted at `root` has a reply by an author of `who`.
pub open spec fn replied_by(idx: &Index, root: i32, who: spec_fn(i32) -> bool) -> bool {
    exists|i: int|
        0 <= i < idx.messages@.len() && (#[trigger] idx.messages@[i]).root_key_id == Some(root)
            && who(idx.messages@[i].author_id)
}

/// The message with key `key` mentions an author of `who`.
pub open spec fn mentions_any(idx: &Index, key: i32, who: spec_fn(i32) -> bool) -> bool {
    exists|i: int|
        0 <= i < idx.mentions@.len() && (#[trigger] idx.mentions@[i]).link_from_key_id == key
            && who(idx.mentions@[i].link_to_author_id)
}

/// The row of a message: its key and both ordering values, an absent asserted
/// time counting as zero.
pub open spec fn row_of(m: Message) -> Row {
    Row {
        key_id: m.key_id,
        flume_seq: m.flume_seq,
        asserted: match m.asserted_time {
            Some(t) => t,
            None => 0,
        },
    }
}

/// The rows of the messages that satisfy `p`, in log order.
pub open spec fn rows_where(msgs: Seq<Message>, p: spec_fn(Message) -> bool) -> Seq<Row>
    decreases msgs.len(),
{
    if msgs.len() == 0 {
        Seq::empty()
    } else {
        let prev = rows_where(msgs.drop_last(), p);
        if p(msgs.last()) {
            prev.push(row_of(msgs.last()))
        } else {
            prev
        }
    }
}

proof fn lemma_push_contains<A>(s: Seq<A>, x: A, y: A)
    ensures
        s.push(x).contains(y) <==> s.contains(y) || y == x,
{
    if s.push(x).contains(y) {
        let k = choose|k: int| 0 <= k < s.push(x).len() && s.push(x)[k] == y;
        if k < s.len() {
            assert(s[k] == y);
        }
    }
    if s.contains(y) {
        let k = choose|k: int| 0 <= k < s.len() && s[k] == y;
        assert(s.push(x)[k] == y);
    }
    if y == x {
        assert(s.push(x)[s.len() as int] == y);
    }
}

pub fn contains_id(v: &Vec<i32>, x: i32) -> (r: bool)
    ensures
        r == v@.contains(x),
{
    let mut i: usize = 0;
    while i < v.len()
        invariant
            i <= v@.len(),
            forall|k: int| 0 <= k < i ==> v@[k] != x,
        decreases v@.len() - i,
    {
        if v[i] == x {
            assert(v@[i as int] == x);
            return true;
        }
        i = i + 1;
    }
    false
}

pub fn opt_contains(v: &Option<Vec<i32>>, x: i32) -> (r: bool)
    ensures
        r == (v matches Some(s) && s@.contains(x)),
{
    match v {
        Some(s) => contains_id(s, x),
        None => false,
    }
}

/// The ids of the authors whose public identifier is in `list`.
pub fn author_ids(index: &Index, list: &Vec<String>) -> (r: Vec<i32>)
    requires
        index.wf(),
    ensures
        forall|id: i32| r@.contains(id) <==> named(index, names(list@))(id),
{
    let mut r: Vec<i32> = Vec::new();
    let mut i: usize = 0;
    while i < index.authors.len()
        invariant
            index.wf(),
            i <= index.authors@.len(),
            forall|id: i32|
                r@.contains(id) <==> (1 <= id <= i && names(list@).contains(
                    index.authors@[id - 1]@,
                )),
        decreases index.authors@.len() - i,
    {
        let found = position_of(list, &index.authors[i]);
        let ghost old_r = r@;
        if found.is_some() {
            proof {
                let j = found->Some_0 as int;
                assert(names(list@)[j] == index.authors@[i as int]@);
            }
            r.push((i + 1) as i32);
        }
        proof {
            assert forall|id: i32|
                r@.contains(id) <==> (1 <= id <= i + 1 && names(list@).contains(
                    index.authors@[id - 1]@,
                )) by {
                lemma_push_contains(old_r, (i + 1) as i32, id);
            }
        }
        i = i + 1;
    }
    r
}

/// The ids of the authors that an author of `ids` actively follows.
pub fn followed_ids(index: &Index, ids: &Vec<i32>, Ghost(who): Ghost<spec_fn(i32) -> bool>) -> (r:
    Vec<i32>)
    requires
        forall|id: i32| ids@.contains(id) <==> who(id),
    ensures
        forall|id: i32| r@.contains(id) <==> follows(index, who)(id),
{
    let mut r: Vec<i32> = Vec::new();
    let mut i: usize = 0;
    while i < index.contacts.len()
        invariant
            i <= index.contacts@.len(),
            forall|id: i32| ids@.contains(id) <==> who(id),
            forall|id: i32|
                r@.contains(id) <==> exists|k: int|
                    0 <= k < i && (#[trigger] index.contacts@[k]).contact_author_id == id
                        && index.contacts@[k].state == FOLLOWING && who(
                        index.contacts@[k].author_id,
                    ),
        decreases index.contacts@.len() - i,
    {
        let c = index.contacts[i];
        let ghost old_r = r@;
        let hit = c.state == FOLLOWING && contains_id(ids, c.author_id);
        if hit {
            r.push(c.contact_author_id);
        }
        proof {
            assert forall|id: i32|
                r@.contains(id) <==> exists|k: int|
                    0 <= k < i + 1 && (#[trigger] index.contacts@[k]).contact_author_id == id
                        && index.contacts@[k].state == FOLLOWING && who(
                        index.contacts@[k].author_id,
                    ) by {
                lemma_push_contains(old_r, c.contact_author_id, id);
                if exists|k: int|
                    0 <= k < i + 1 && (#[trigger] index.contacts@[k]).contact_author_id == id
                        && index.contacts@[k].state == FOLLOWING && who(
                        index.contacts@[k].author_id,
                    ) {
                    let k = choose|k: int|
                        0 <= k < i + 1 && (#[trigger] index.contacts@[k]).contact_author_id == id
                            && index.contacts@[k].state == FOLLOWING && who(
                            index.contacts@[k].author_id,
                        );
                    if k == i {
                        assert(hit);
                    }
                }
            }
        }
        i = i + 1;
    }
    r
}

/// The root keys of the threads that have a reply by an author of `ids`.
pub fn reply_root_keys(index: &Index, ids: &Vec<i32>, Ghost(who): Ghost<spec_fn(i32) -> bool>) -> (r:
    Vec<i32>)
    requires
        forall|id: i32| ids@.contains(id) <==> who(id),
    ensures
        forall|k: i32| r@.contains(k) <==> replied_by(index, k, who),
{
    let mut r: Vec<i32> = Vec::new();
    let mut i: usize = 0;
    while i < index.messages.len()
        invariant
            i <= index.messages@.len(),
            forall|id: i32| ids@.contains(id) <==> who(id),
            forall|key: i32|
                r@.contains(key) <==> exists|k: int|
                    0 <= k < i && (#[trigger] index.messages@[k]).root_key_id == Some(key) && who(
                        index.messages@[k].author_id,
                    ),
        decreases index.messages@.len() - i,
    {
        let ghost old_r = r@;
        let ghost m = index.messages@[i as int];
        let mut pushed: Option<i32> = None;
        match index.messages[i].root_key_id {
            Some(root) => {
                if contains_id(ids, index.messages[i].author_id) {
                    r.push(root);
                    pushed = Some(root);
                }
            },
            None => {},
        }
        proof {
            assert forall|key: i32|
                r@.contains(key) <==> exists|k: int|
                    0 <= k < i + 1 && (#[trigger] index.messages@[k]).root_key_id == Some(key)
                        && who(index.messages@[k].author_id) by {
                if pushed is Some {
                    lemma_push_contains(old_r, pushed->Some_0, key);
                } else {
                    assert(r@ == old_r);
                }
                if exists|k: int|
                    0 <= k < i + 1 && (#[trigger] index.messages@[k]).root_key_id == Some(key)
                        && who(index.messages@[k].author_id) {
                    let k = choose|k: int|
                        0 <= k < i + 1 && (#[trigger] index.messages@[k]).root_key_id == Some(key)
                            && who(index.messages@[k].author_id);
                    if k == i {
                        assert(pushed == Some(key));
                    }
                }
            }
        }
        i = i + 1;
    }
    r
}

/// The keys of the messages that mention an author of `ids`.
pub fn mentioning_keys(index: &Index, ids: &Vec<i32>, Ghost(who): Ghost<spec_fn(i32) -> bool>) -> (r:
    Vec<i32>)
    requires
        forall|id: i32| ids@.contains(id) <==> who(id),
    ensures
        forall|k: i32| r@.contains(k) <==> mentions_any(index, k, who),
{
    let mut r: Vec<i32> = Vec::new();
    let mut i: usize = 0;
    while i < index.mentions.len()
        invariant
            i <= index.mentions@.len(),
            forall|id: i32| ids@.contains(id) <==> who(id),
            forall|key: i32|
                r@.contains(key) <==> exists|k: int|
                    0 <= k < i && (#[trigger] index.mentions@[k]).link_from_key_id == key && who(
                        index.mentions@[k].link_to_author_id,
                    ),
        decreases index.mentions@.len() - i,
    {
        let mention = index.mentions[i];
        let ghost old_r = r@;
        let hit = contains_id(ids, mention.link_to_author_id);
        if hit {
            r.push(mention.link_from_key_id);
        }
        proof {
            assert forall|key: i32|
                r@.contains(key) <==> exists|k: int|
                    0 <= k < i + 1 && (#[trigger] index.mentions@[k]).link_from_key_id == key
                        && who(index.mentions@[k].link_to_author_id) by {
                lemma_push_contains(old_r, mention.link_from_key_id, key);
                if exists|k: int|
                    0 <= k < i + 1 && (#[trigger] index.mentions@[k]).link_from_key_id == key
                        && who(index.mentions@[k].link_to_author_id) {
                    let k = choose|k: int|
                        0 <= k < i + 1 && (#[trigger] index.mentions@[k]).link_from_key_id == key
                            && who(index.mentions@[k].link_to_author_id);
                    if k == i {
                        assert(hit);
                    }
                }
            }
        }
        i = i + 1;
    }
    r
}

} // verus!
