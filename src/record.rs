use vstd::prelude::*;

use crate::codec::{le32, push_le32};
use crate::error::Error;

verus! {

/// Tag byte of a record that sets a key.
pub const TAG_PUT: u8 = 0;

/// Tag byte of a record that removes a key.
pub const TAG_DELETE: u8 = 1;

/// One mutation, as it is appended to the log.
#[derive(Debug, PartialEq, Eq)]
pub enum Record {
    Put { key: Vec<u8>, value: Vec<u8> },
    Delete { key: Vec<u8> },
}

/// A record as a mathematical value.
pub ghost enum RecordView {
    Put { key: Seq<u8>, value: Seq<u8> },
    Delete { key: Seq<u8> },
}

impl RecordView {
    pub open spec fn key(self) -> Seq<u8> {
        match self {
            RecordView::Put { key, .. } => key,
            RecordView::Delete { key } => key,
        }
    }

    /// A record that the log can carry: its key is not empty, and every
    /// length fits in four bytes.
    pub open spec fn wf(self) -> bool {
        &&& 0 < self.key().len() <= u32::MAX
        &&& (self matches RecordView::Put { value, .. } ==> value.len() <= u32::MAX)
    }

    /// The bytes of the record in the log: the tag, the key's length and the
    /// key, then for a `Put` the value's length and the value.
    pub open spec fn encode(self) -> Seq<u8> {
        match self {
            RecordView::Put { key, value } => seq![TAG_PUT] + le32(key.len() as u32) + key + le32(
                value.len() as u32,
            ) + value,
            RecordView::Delete { key } => seq![TAG_DELETE] + le32(key.len() as u32) + key,
        }
    }
}

impl View for Record {
    type V = RecordView;

    open spec fn view(&self) -> RecordView {
        match self {
            Record::Put { key, value } => RecordView::Put { key: key@, value: value@ },
            Record::Delete { key } => RecordView::Delete { key: key@ },
        }
    }
}

/// Every record of `rs` can be carried by the log.
pub open spec fn all_wf(rs: Seq<RecordView>) -> bool {
    forall|i: int| 0 <= i < rs.len() ==> (#[trigger] rs[i]).wf()
}

/// The log that holds the records of `rs`, in order.
pub open spec fn encode_log(rs: Seq<RecordView>) -> Seq<u8>
    decreases rs.len(),
{
    if rs.len() == 0 {
        Seq::empty()
    } else {
        rs[0].encode() + encode_log(rs.skip(1))
    }
}

/// Appending a record to a log appends its bytes.
pub proof fn lemma_encode_log_push(rs: Seq<RecordView>, r: RecordView)
    ensures
        encode_log(rs.push(r)) == encode_log(rs) + r.encode(),
    decreases rs.len(),
{
    if rs.len() == 0 {
        assert(rs.push(r).skip(1) =~= Seq::<RecordView>::empty());
        assert(rs.push(r)[0] == r);
        assert(encode_log(rs.push(r).skip(1)) == Seq::<u8>::empty());
        assert(encode_log(rs.push(r)) =~= r.encode());
    } else {
        assert(rs.push(r).skip(1) =~= rs.skip(1).push(r));
        lemma_encode_log_push(rs.skip(1), r);
        assert(rs.push(r)[0] == rs[0]);
        assert(encode_log(rs.push(r)) =~= encode_log(rs) + r.encode());
    }
}

impl Record {
    /// A `Put` of `value` under `key`; refused when `key` is empty.
    pub fn put(key: Vec<u8>, value: Vec<u8>) -> (r: Result<Record, Error>)
        requires
            key@.len() <= u32::MAX,
            value@.len() <= u32::MAX,
        ensures
            key@.len() == 0 ==> r == Err::<Record, Error>(Error::InvalidKey),
            key@.len() > 0 ==> (r matches Ok(rec) && rec@ == (RecordView::Put { key: key@, value: value@ })),
    {
        if key.len() == 0 {
            Err(Error::InvalidKey)
        } else {
            Ok(Record::Put { key, value })
        }
    }

    /// A `Delete` of `key`; refused when `key` is empty.
    pub fn delete(key: Vec<u8>) -> (r: Result<Record, Error>)
        requires
            key@.len() <= u32::MAX,
        ensures
            key@.len() == 0 ==> r == Err::<Record, Error>(Error::InvalidKey),
            key@.len() > 0 ==> (r matches Ok(rec) && rec@ == (RecordView::Delete { key: key@ })),
    {
        if key.len() == 0 {
            Err(Error::InvalidKey)
        } else {
            Ok(Record::Delete { key })
        }
    }

    /// The key that the record sets or removes.
    pub fn key(&self) -> (r: &Vec<u8>)
        ensures
            r@ == self@.key(),
    {
        match self {
            Record::Put { key, .. } => key,
            Record::Delete { key } => key,
        }
    }

    /// The bytes to append to the log for this record.
    pub fn encode(&self) -> (r: Vec<u8>)
        requires
            self@.wf(),
        ensures
            r@ == self@.encode(),
    {
        let mut out: Vec<u8> = Vec::new();
        match self {
            Record::Put { key, value } => {
                out.push(TAG_PUT);
                push_le32(&mut out, key.len() as u32);
                push_bytes(&mut out, key);
                push_le32(&mut out, value.len() as u32);
                push_bytes(&mut out, value);
            },
            Record::Delete { key } => {
                out.push(TAG_DELETE);
                push_le32(&mut out, key.len() as u32);
                push_bytes(&mut out, key);
            },
        }
        assert(out@ =~= self@.encode());
        out
    }
}

/// Appends the bytes of `b` to `out`.
pub fn push_bytes(out: &mut Vec<u8>, b: &[u8])
    ensures
        final(out)@ == old(out)@ + b@,
{
    let mut i: usize = 0;
    while i < b.len()
        invariant
            i <= b@.len(),
            out@ == old(out)@ + b@.take(i as int),
        decreases b@.len() - i,
    {
        out.push(b[i]);
        i += 1;
        assert(out@ =~= old(out)@ + b@.take(i as int));
    }
    assert(b@.take(i as int) =~= b@);
}

} // verus!
