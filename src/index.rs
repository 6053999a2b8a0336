//! The relational index: key registry, authors, messages, mentions, contacts.
use vstd::prelude::*;

verus! {

/// The contact state that means "actively following".
pub const FOLLOWING: i32 = 1;

/// The largest surrogate id that a key or an author can get.
pub const MAX_ID: i32 = 0x7fff_ffff;

/// One indexed message. Every field is fixed when the row is written.
pub struct Message {
    /// Global position in the log; strictly increasing over the index.
    pub flume_seq: i64,
    /// Id of the message's own key.
    pub key_id: i32,
    /// Sequence number of the message in its author's feed.
    pub seq: i32,
    pub received_time: i64,
    pub asserted_time: Option<i64>,
    /// Key of the thread root this message replies to, if any.
    pub root_key_id: Option<i32>,
    pub fork_key_id: Option<i32>,
    pub author_id: i32,
    pub content_type: Option<String>,
    pub content: Option<String>,
    pub is_decrypted: bool,
}

/// A message that names an author in its content.
#[derive(Clone, Copy, PartialEq, Eq, Structural, Debug)]
pub struct Mention {
    pub link_from_key_id: i32,
    pub link_to_author_id: i32,
}

/// A directed relationship from one author to another.
#[derive(Clone, Copy, PartialEq, Eq, Structural, Debug)]
pub struct Contact {
    pub author_id: i32,
    pub contact_author_id: i32,
    pub state: i32,
}

/// A log record as the indexer reads it.
pub struct SsbMessage {
    /// Content-addressed identifier of the message.
    pub key: String,
    /// Public identifier of the author.
    pub author: String,
    /// Sequence number in the author's feed.
    pub sequence: i32,
    /// Time the author claims, in milliseconds.
    pub asserted_time: i64,
    /// Time of receipt, in milliseconds.
    pub received_time: i64,
    /// The content as serialized JSON, or the opaque payload of a private message.
    pub content: String,
}

/// Why a log record could not be indexed.
#[derive(Clone, Copy, PartialEq, Eq, Structural, Debug)]
pub enum IngestError {
    /// The record's sequence does not exceed the last one indexed.
    SequenceNotIncreasing,
    /// No id is left for a new key.
    KeyTableFull,
    /// A message with the record's key id is already indexed.
    KeyAlreadyIndexed,
}

/// The index tables. A key's id, and an author's id, is its position plus one.
pub struct Index {
    pub keys: Vec<String>,
    pub authors: Vec<String>,
    /// The author with publishing rights on this machine.
    pub me: Option<i32>,
    pub messages: Vec<Message>,
    pub mentions: Vec<Mention>,
    pub contacts: Vec<Contact>,
}

/// The character sequences of a table of strings.
pub open spec fn names(t: Seq<String>) -> Seq<Seq<char>> {
    t.map_values(|s: String| s@)
}

pub open spec fn unique(t: Seq<Seq<char>>) -> bool {
    forall|i: int, j: int| 0 <= i < j < t.len() ==> t[i] != t[j]
}

/// Whether `id` is the id of `s` in the table `t`.
pub open spec fn id_of(t: Seq<Seq<char>>, s: Seq<char>, id: int) -> bool {
    1 <= id <= t.len() && t[id - 1] == s
}

/// The table after a find-or-create of `s`, when there was room.
pub open spec fn with_name(t: Seq<Seq<char>>, s: Seq<char>) -> Seq<Seq<char>> {
    if t.contains(s) {
        t
    } else {
        t.push(s)
    }
}

/// What a find-or-create of `s` does to the table `before`, and what it returns.
pub open spec fn find_or_create_result(
    before: Seq<Seq<char>>,
    s: Seq<char>,
    after: Seq<Seq<char>>,
    r: Result<i32, IngestError>,
) -> bool {
    if before.contains(s) || before.len() < MAX_ID {
        &&& after == with_name(before, s)
        &&& r matches Ok(id) && id_of(after, s, id as int)
    } else {
        after == before && r == Err::<i32, IngestError>(IngestError::KeyTableFull)
    }
}

/// The sequence of the newest message, or zero for an empty index.
pub open spec fn last_seq(msgs: Seq<Message>) -> int {
    if msgs.len() == 0 {
        0
    } else {
        msgs.last().flume_seq as int
    }
}

/// Some indexed message has the key id `k`.
pub open spec fn has_key_id(msgs: Seq<Message>, k: i32) -> bool {
    exists|i: int| 0 <= i < msgs.len() && (#[trigger] msgs[i]).key_id == k
}

/// No two indexed messages share a key id.
pub open spec fn key_ids_distinct(msgs: Seq<Message>) -> bool {
    forall|i: int, j: int| 0 <= i < j < msgs.len() ==> msgs[i].key_id != msgs[j].key_id
}

pub open spec fn seqs_increasing(msgs: Seq<Message>) -> bool {
    forall|i: int, j: int| 0 <= i < j < msgs.len() ==> msgs[i].flume_seq < msgs[j].flume_seq
}

impl Index {
    /// The tables hold unique key and author strings, ids fit in `i32`,
    /// message sequences strictly increase, and no two messages share a key id.
    pub open spec fn wf(&self) -> bool {
        &&& self.keys@.len() <= MAX_ID
        &&& unique(names(self.keys@))
        &&& self.authors@.len() <= MAX_ID
        &&& unique(names(self.authors@))
        &&& seqs_increasing(self.messages@)
        &&& key_ids_distinct(self.messages@)
        &&& self.me matches Some(m) ==> 1 <= m <= self.authors@.len()
    }

    /// An empty index.
    pub fn new() -> (r: Index)
        ensures
            r.wf(),
            r.keys@.len() == 0,
            r.authors@.len() == 0,
            r.me is None,
            r.messages@.len() == 0,
            r.mentions@.len() == 0,
            r.contacts@.len() == 0,
    {
        Index {
            keys: Vec::new(),
            authors: Vec::new(),
            me: None,
            messages: Vec::new(),
            mentions: Vec::new(),
            contacts: Vec::new(),
        }
    }
}

/// The position of `s` in `t`, if it is there.
pub fn position_of(t: &Vec<String>, s: &String) -> (r: Option<usize>)
    ensures
        r matches Some(i) ==> i < t@.len() && t@[i as int]@ == s@,
        r is None ==> !names(t@).contains(s@),
{
    let mut i: usize = 0;
    while i < t.len()
        invariant
            i <= t@.len(),
            forall|j: int| 0 <= j < i ==> t@[j]@ != s@,
        decreases t@.len() - i,
    {
        if t[i] == *s {
            return Some(i);
        }
        i = i + 1;
    }
    proof {
        if names(t@).contains(s@) {
            let j = choose|j: int| 0 <= j < names(t@).len() && names(t@)[j] == s@;
            assert(t@[j]@ == s@);
        }
    }
    None
}

/// Returns the id of `s` in the table, adding it first when it is new.
/// Two callers never create two rows for one string.
pub fn find_or_create(t: &mut Vec<String>, s: &str) -> (r: Result<i32, IngestError>)
    requires
        old(t)@.len() <= MAX_ID,
        unique(names(old(t)@)),
    ensures
        find_or_create_result(names(old(t)@), s@, names(final(t)@), r),
        final(t)@.len() <= MAX_ID,
        unique(names(final(t)@)),
{
    let key = String::from_str(s);
    match position_of(t, &key) {
        Some(i) => {
            assert(names(t@)[i as int] == s@);
            Ok((i + 1) as i32)
        },
        None => {
            if t.len() >= MAX_ID as usize {
                return Err(IngestError::KeyTableFull);
            }
            let ghost before = names(t@);
            t.push(key);
            assert(names(t@) =~= before.push(s@));
            Ok(t.len() as i32)
        },
    }
}

impl Index {
    /// Returns the id of the author `author`, registering it first when it is new.
    pub fn find_or_create_author(&mut self, author: &str) -> (r: Result<i32, IngestError>)
        requires
            old(self).wf(),
        ensures
            final(self).wf(),
            find_or_create_result(names(old(self).authors@), author@, names(final(self).authors@), r),
            final(self).keys@ == old(self).keys@,
            final(self).me == old(self).me,
            final(self).messages@ == old(self).messages@,
            final(self).mentions@ == old(self).mentions@,
            final(self).contacts@ == old(self).contacts@,
    {
        find_or_create(&mut self.authors, author)
    }

    /// Marks `author` as the one with publishing rights on this machine,
    /// registering it when it is new. At most one author is so marked.
    pub fn set_is_me(&mut self, author: &str) -> (r: Result<i32, IngestError>)
        requires
            old(self).wf(),
        ensures
            final(self).wf(),
            find_or_create_result(names(old(self).authors@), author@, names(final(self).authors@), r),
            r matches Ok(id) ==> final(self).me == Some(id),
            r is Err ==> final(self).me == old(self).me,
            final(self).keys@ == old(self).keys@,
            final(self).messages@ == old(self).messages@,
            final(self).mentions@ == old(self).mentions@,
            final(self).contacts@ == old(self).contacts@,
    {
        let r = find_or_create(&mut self.authors, author);
        if let Ok(id) = r {
            self.me = Some(id);
        }
        r
    }

    /// Records that the message with key id `from` mentions the author `to`.
    pub fn add_mention(&mut self, from: i32, to: i32)
        requires
            old(self).wf(),
        ensures
            final(self).wf(),
            final(self).mentions@ == old(self).mentions@.push(
                Mention { link_from_key_id: from, link_to_author_id: to },
            ),
            final(self).keys@ == old(self).keys@,
            final(self).authors@ == old(self).authors@,
            final(self).me == old(self).me,
            final(self).messages@ == old(self).messages@,
            final(self).contacts@ == old(self).contacts@,
    {
        self.mentions.push(Mention { link_from_key_id: from, link_to_author_id: to });
    }

    /// Records the contact state of `author` towards `contact`.
    pub fn add_contact(&mut self, author: i32, contact: i32, state: i32)
        requires
            old(self).wf(),
        ensures
            final(self).wf(),
            final(self).contacts@ == old(self).contacts@.push(
                Contact { author_id: author, contact_author_id: contact, state },
            ),
            final(self).keys@ == old(self).keys@,
            final(self).authors@ == old(self).authors@,
            final(self).me == old(self).me,
            final(self).messages@ == old(self).messages@,
            final(self).mentions@ == old(self).mentions@,
    {
        self.contacts.push(Contact { author_id: author, contact_author_id: contact, state });
    }
}

/// Whether a message with the key id `k` is indexed.
pub fn key_id_indexed(msgs: &Vec<Message>, k: i32) -> (r: bool)
    ensures
        r == has_key_id(msgs@, k),
{
    let mut i: usize = 0;
    while i < msgs.len()
        invariant
            i <= msgs@.len(),
            forall|j: int| 0 <= j < i ==> (#[trigger] msgs@[j]).key_id != k,
        decreases msgs@.len() - i,
    {
        if msgs[i].key_id == k {
            assert(msgs@[i as int].key_id == k);
            return true;
        }
        i = i + 1;
    }
    false
}

/// Registering a string twice gives the same id and leaves the table as the
/// first registration left it.
pub proof fn lemma_find_or_create_idempotent(
    t0: Seq<Seq<char>>,
    s: Seq<char>,
    t1: Seq<Seq<char>>,
    r1: Result<i32, IngestError>,
    t2: Seq<Seq<char>>,
    r2: Result<i32, IngestError>,
)
    requires
        unique(t1),
        r1 is Ok,
        find_or_create_result(t0, s, t1, r1),
        find_or_create_result(t1, s, t2, r2),
    ensures
        r2 == r1,
        t2 == t1,
{
    let id1 = r1->Ok_0 as int;
    assert(t1.contains(s)) by {
        assert(t1[id1 - 1] == s);
    }
    let id2 = r2->Ok_0 as int;
    assert(with_name(t1, s) == t1);
}

} // verus!
