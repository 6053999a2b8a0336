//! Turning log records into index rows.
use vstd::prelude::*;
use crate::index::{
    find_or_create_result, has_key_id, key_id_indexed, seqs_increasing, unique,
    find_or_create, id_of, last_seq, names, with_name, IngestError, Index, Message, SsbMessage,
    MAX_ID,
};

verus! {

/// The string that the field `field` of the JSON object written in `text`
/// holds; none where the text is no object or the field holds no string.
pub uninterp spec fn json_string_field(text: Seq<char>, field: Seq<char>) -> Option<Seq<char>>;

pub open spec fn opt_view(o: Option<String>) -> Option<Seq<char>> {
    match o {
        Some(s) => Some(s@),
        None => None,
    }
}

/// Relies on serde_json::from_str, Value::get and Value::as_str: reads the
/// string held by one field of a JSON object given as text.
#[verifier::external_body]
fn content_string_field(content: &str, field: &str) -> (r: Option<String>)
    ensures
        opt_view(r) == json_string_field(content@, field@),
{
    serde_json::from_str::<serde_json::Value>(content).ok().and_then(
        |v| v.get(field).and_then(|f| f.as_str()).map(|s| s.to_string()),
    )
}

/// The key table after resolving an optional reference.
pub open spec fn resolved(t: Seq<Seq<char>>, s: Option<Seq<char>>) -> Seq<Seq<char>> {
    match s {
        Some(k) => with_name(t, k),
        None => t,
    }
}

/// `id` is the key id of the optional reference `s` in the table `t`.
pub open spec fn ref_id(t: Seq<Seq<char>>, s: Option<Seq<char>>, id: Option<i32>) -> bool {
    match s {
        Some(k) => id matches Some(i) && id_of(t, k, i as int),
        None => id is None,
    }
}

/// The row written for `m`, given the key table after its references were resolved.
pub open spec fn is_row_for(
    row: Message,
    m: SsbMessage,
    seq: i64,
    key_id: i32,
    is_decrypted: bool,
    author_id: i32,
    keys: Seq<Seq<char>>,
) -> bool {
    &&& row.flume_seq == seq
    &&& row.key_id == key_id
    &&& row.seq == m.sequence
    &&& row.received_time == m.received_time
    &&& row.asserted_time == Some(m.asserted_time)
    &&& ref_id(keys, json_string_field(m.content@, "root"@), row.root_key_id)
    &&& ref_id(keys, json_string_field(m.content@, "fork"@), row.fork_key_id)
    &&& row.author_id == author_id
    &&& opt_view(row.content_type) == json_string_field(m.content@, "type"@)
    &&& opt_view(row.content) == Some(m.content@)
    &&& row.is_decrypted == is_decrypted
}

/// Resolves an optional reference to a key id, creating the key when it is new.
fn resolve_ref(t: &mut Vec<String>, s: Option<String>) -> (r: Option<i32>)
    requires
        old(t)@.len() < MAX_ID,
        unique(names(old(t)@)),
    ensures
        names(final(t)@) == resolved(names(old(t)@), opt_view(s)),
        ref_id(names(final(t)@), opt_view(s), r),
        final(t)@.len() <= old(t)@.len() + 1,
        unique(names(final(t)@)),
{
    match s {
        Some(k) => {
            let r = find_or_create(t, k.as_str());
            match r {
                Ok(id) => Some(id),
                Err(_) => None,
            }
        },
        None => None,
    }
}

impl Index {
    /// Returns the id of `key`, registering it first when it is new.
    pub fn find_or_create_key(&mut self, key: &str) -> (r: Result<i32, IngestError>)
        requires
            old(self).wf(),
        ensures
            final(self).wf(),
            find_or_create_result(names(old(self).keys@), key@, names(final(self).keys@), r),
            final(self).authors@ == old(self).authors@,
            final(self).me == old(self).me,
            final(self).messages@ == old(self).messages@,
            final(self).mentions@ == old(self).mentions@,
            final(self).contacts@ == old(self).contacts@,
    {
        find_or_create(&mut self.keys, key)
    }
}

/// After a successful insertion the new row's sequence is above that of every
/// earlier row, so no sequence is ever given twice.
pub proof fn lemma_sequence_is_fresh(before: Seq<Message>, after: Seq<Message>)
    requires
        seqs_increasing(after),
        after.len() == before.len() + 1,
        after.drop_last() == before,
    ensures
        forall|i: int| 0 <= i < before.len() ==> before[i].flume_seq < after.last().flume_seq,
        last_seq(after) == after.last().flume_seq,
{
    assert forall|i: int| 0 <= i < before.len() implies before[i].flume_seq < after.last().flume_seq by {
        assert(before[i] == after[i]);
    }
}

/// Writes the row of one log record. The record's root and fork references are
/// resolved to key ids, creating keys for messages that have not arrived yet.
/// The row is written exactly when its sequence is above every indexed one,
/// its key id is not indexed yet, and the key table has room for two more keys;
/// on an error nothing is written.
pub fn insert_message(
    index: &mut Index,
    message: &SsbMessage,
    seq: i64,
    message_key_id: i32,
    is_decrypted: bool,
    author_id: i32,
) -> (r: Result<usize, IngestError>)
    requires
        old(index).wf(),
    ensures
        final(index).wf(),
        old(index).messages@.len() > 0 && seq <= last_seq(old(index).messages@) ==> r == Err::<
            usize,
            IngestError,
        >(IngestError::SequenceNotIncreasing),
        !(old(index).messages@.len() > 0 && seq <= last_seq(old(index).messages@))
            && has_key_id(old(index).messages@, message_key_id) ==> r == Err::<usize, IngestError>(
            IngestError::KeyAlreadyIndexed,
        ),
        !(old(index).messages@.len() > 0 && seq <= last_seq(old(index).messages@))
            && !has_key_id(old(index).messages@, message_key_id) && old(index).keys@.len() + 2
            > MAX_ID ==> r == Err::<usize, IngestError>(IngestError::KeyTableFull),
        !(old(index).messages@.len() > 0 && seq <= last_seq(old(index).messages@))
            && !has_key_id(old(index).messages@, message_key_id) && old(index).keys@.len() + 2
            <= MAX_ID ==> r == Ok::<usize, IngestError>(1),
        r is Err ==> *final(index) == *old(index),
        r is Ok ==> {
            &&& r == Ok::<usize, IngestError>(1)
            &&& names(final(index).keys@) == resolved(
                resolved(names(old(index).keys@), json_string_field(message.content@, "root"@)),
                json_string_field(message.content@, "fork"@),
            )
            &&& final(index).messages@.len() == old(index).messages@.len() + 1
            &&& final(index).messages@.drop_last() == old(index).messages@
            &&& is_row_for(
                final(index).messages@.last(),
                *message,
                seq,
                message_key_id,
                is_decrypted,
                author_id,
                names(final(index).keys@),
            )
            &&& final(index).authors@ == old(index).authors@
            &&& final(index).me == old(index).me
            &&& final(index).mentions@ == old(index).mentions@
            &&& final(index).contacts@ == old(index).contacts@
        },
{
    let n = index.messages.len();
    if n > 0 && seq <= index.messages[n - 1].flume_seq {
        return Err(IngestError::SequenceNotIncreasing);
    }
    if key_id_indexed(&index.messages, message_key_id) {
        return Err(IngestError::KeyAlreadyIndexed);
    }
    if index.keys.len() > (MAX_ID - 2) as usize {
        return Err(IngestError::KeyTableFull);
    }
    let root = content_string_field(message.content.as_str(), "root");
    let fork = content_string_field(message.content.as_str(), "fork");
    let content_type = content_string_field(message.content.as_str(), "type");
    let root_key_id = resolve_ref(&mut index.keys, root);
    let ghost keys_mid = names(index.keys@);
    let fork_key_id = resolve_ref(&mut index.keys, fork);
    proof {
        // a key once registered keeps its id
        let t = names(index.keys@);
        if root_key_id is Some {
            let i = root_key_id->Some_0 as int;
            assert(t[i - 1] == keys_mid[i - 1]);
        }
    }
    let row = Message {
        flume_seq: seq,
        key_id: message_key_id,
        seq: message.sequence,
        received_time: message.received_time,
        asserted_time: Some(message.asserted_time),
        root_key_id,
        fork_key_id,
        author_id,
        content_type,
        content: Some(message.content.clone()),
        is_decrypted,
    };
    let ghost before = index.messages@;
    index.messages.push(row);
    assert(index.messages@.drop_last() =~= before);
    assert(forall|j: int| 0 <= j < before.len() ==> index.messages@[j] == before[j]);
    Ok(1)
}

} // verus!
