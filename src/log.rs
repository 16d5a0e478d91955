use vstd::prelude::*;

use crate::codec::{le32, le32_value, lemma_le32_of_le32_value, lemma_le32_value_of_le32, read_le32};
use crate::error::Error;
use crate::record::{all_wf, encode_log, Record, RecordView, TAG_DELETE, TAG_PUT};

verus! {

/// What the front of a log holds.
pub ghost enum Step {
    /// Nothing: the log ends here.
    End,
    /// The start of a record whose declared lengths run past the end of the log.
    Partial,
    /// Bytes that no prefix of a record can have.
    Corrupt,
    /// A whole record, `len` bytes long.
    Complete { record: RecordView, len: nat },
}

/// Reads the record at the front of `b`.
#[verifier::opaque]
pub open spec fn parse_step(b: Seq<u8>) -> Step {
    if b.len() == 0 {
        Step::End
    } else if b[0] != TAG_PUT && b[0] != TAG_DELETE {
        Step::Corrupt
    } else if b.len() < 5 {
        Step::Partial
    } else {
        let klen = le32_value(b.subrange(1, 5));
        if klen == 0 {
            Step::Corrupt
        } else if b.len() < 5 + klen {
            Step::Partial
        } else {
            let key = b.subrange(5, 5 + klen);
            if b[0] == TAG_DELETE {
                Step::Complete { record: RecordView::Delete { key }, len: (5 + klen) as nat }
            } else if b.len() < 9 + klen {
                Step::Partial
            } else {
                let vlen = le32_value(b.subrange(5 + klen, 9 + klen));
                if b.len() < 9 + klen + vlen {
                    Step::Partial
                } else {
                    Step::Complete {
                        record: RecordView::Put {
                            key,
                            value: b.subrange(9 + klen, 9 + klen + vlen),
                        },
                        len: (9 + klen + vlen) as nat,
                    }
                }
            }
        }
    }
}

/// What replaying a log finds.
pub ghost enum LogParse {
    /// The whole records, in order, and the number of bytes they fill; a
    /// partial record after them is left out.
    Valid { records: Seq<RecordView>, len: nat },
    /// Some record is malformed.
    Corrupt,
}

/// `p`, with the records `rs`, `n` bytes long, put in front.
pub open spec fn prepend(rs: Seq<RecordView>, n: nat, p: LogParse) -> LogParse {
    match p {
        LogParse::Valid { records, len } => LogParse::Valid { records: rs + records, len: n + len },
        LogParse::Corrupt => LogParse::Corrupt,
    }
}

/// Reads a log from the front: whole records are kept, a partial record at
/// the end is dropped, and a malformed record makes the log corrupt.
pub open spec fn parse_log(b: Seq<u8>) -> LogParse
    decreases b.len(),
{
    match parse_step(b) {
        Step::Complete { record, len } => if 0 < len <= b.len() {
            prepend(seq![record], len, parse_log(b.skip(len as int)))
        } else {
            LogParse::Corrupt
        },
        Step::Corrupt => LogParse::Corrupt,
        _ => LogParse::Valid { records: Seq::empty(), len: 0 },
    }
}

/// An empty log holds no record.
pub proof fn lemma_parse_log_empty()
    ensures
        parse_log(Seq::empty()) == (LogParse::Valid { records: Seq::empty(), len: 0 }),
{
    reveal(parse_step);
}

/// The mathematical records of `rs`.
pub open spec fn views(rs: Seq<Record>) -> Seq<RecordView> {
    rs.map_values(|r: Record| r@)
}

/// A whole record read from the front of a log is a record that the log
/// can carry, and the bytes read are its encoding.
pub proof fn lemma_step_encodes(b: Seq<u8>)
    requires
        parse_step(b) is Complete,
    ensures
        0 < parse_step(b)->len <= b.len(),
        parse_step(b)->record.wf(),
        b.take(parse_step(b)->len as int) == parse_step(b)->record.encode(),
{
    reveal(parse_step);
    let klen = le32_value(b.subrange(1, 5));
    lemma_le32_of_le32_value(b.subrange(1, 5));
    let r = parse_step(b)->record;
    let n = parse_step(b)->len;
    if b[0] == TAG_DELETE {
        assert(b.take(n as int) =~= r.encode());
    } else {
        lemma_le32_of_le32_value(b.subrange(5 + klen, 9 + klen));
        assert(b.take(n as int) =~= r.encode());
    }
}

/// The encoding of a record is read back as that record, whatever follows it.
pub proof fn lemma_step_of_encoded(r: RecordView, tail: Seq<u8>)
    requires
        r.wf(),
    ensures
        parse_step(r.encode() + tail) == (Step::Complete { record: r, len: r.encode().len() }),
{
    reveal(parse_step);
    let b = r.encode() + tail;
    let k = r.key();
    let kl = k.len() as int;
    lemma_le32_value_of_le32(k.len() as u32);
    assert(b.subrange(1, 5) =~= le32(k.len() as u32));
    assert(b.subrange(5, 5 + kl) =~= k);
    match r {
        RecordView::Put { key, value } => {
            lemma_le32_value_of_le32(value.len() as u32);
            assert(b.subrange(5 + kl, 9 + kl) =~= le32(value.len() as u32));
            assert(b.subrange(9 + kl, 9 + kl + value.len()) =~= value);
        },
        RecordView::Delete { .. } => {},
    }
}

/// A log cut off inside its first record holds no whole record.
pub proof fn lemma_step_of_cut(r: RecordView, t: int)
    requires
        r.wf(),
        0 <= t < r.encode().len(),
    ensures
        parse_log(r.encode().take(t)) == (LogParse::Valid { records: Seq::empty(), len: 0 }),
{
    reveal(parse_step);
    let e = r.encode();
    let b = e.take(t);
    let k = r.key();
    let kl = k.len() as int;
    lemma_le32_value_of_le32(k.len() as u32);
    if t >= 5 {
        assert(b.subrange(1, 5) =~= le32(k.len() as u32));
    }
    match r {
        RecordView::Put { key, value } => {
            lemma_le32_value_of_le32(value.len() as u32);
            if t >= 9 + kl {
                assert(b.subrange(5 + kl, 9 + kl) =~= le32(value.len() as u32));
            }
        },
        RecordView::Delete { .. } => {},
    }
    assert(parse_step(b) is End || parse_step(b) is Partial);
}

/// A log of whole records is read back as those records, followed by what
/// the rest of the log holds.
pub proof fn lemma_parse_log_encoded(rs: Seq<RecordView>, tail: Seq<u8>)
    requires
        all_wf(rs),
    ensures
        parse_log(encode_log(rs) + tail) == prepend(rs, encode_log(rs).len(), parse_log(tail)),
    decreases rs.len(),
{
    if rs.len() == 0 {
        assert(encode_log(rs) + tail =~= tail);
        assert(rs + Seq::<RecordView>::empty() =~= rs);
        match parse_log(tail) {
            LogParse::Valid { records, .. } => assert(rs + records =~= records),
            LogParse::Corrupt => {},
        }
    } else {
        let r = rs[0];
        let rest = rs.skip(1);
        assert(r.wf());
        assert(all_wf(rest)) by {
            assert forall|i: int| 0 <= i < rest.len() implies (#[trigger] rest[i]).wf() by {
                assert(rest[i] == rs[i + 1]);
            }
        }
        let b = encode_log(rs) + tail;
        assert(b =~= r.encode() + (encode_log(rest) + tail));
        lemma_step_of_encoded(r, encode_log(rest) + tail);
        assert(b.skip(r.encode().len() as int) =~= encode_log(rest) + tail);
        lemma_parse_log_encoded(rest, tail);
        match parse_log(tail) {
            LogParse::Valid { records, .. } => {
                assert(seq![r] + (rest + records) =~= rs + records);
            },
            LogParse::Corrupt => {},
        }
    }
}

/// What replay reads is the encoding of the records it returns, and those
/// records can all be carried by the log.
pub proof fn lemma_parse_log_encodes(b: Seq<u8>)
    requires
        parse_log(b) is Valid,
    ensures
        parse_log(b)->len <= b.len(),
        all_wf(parse_log(b)->records),
        b.take(parse_log(b)->len as int) == encode_log(parse_log(b)->records),
    decreases b.len(),
{
    match parse_step(b) {
        Step::Complete { record, len } => {
            lemma_step_encodes(b);
            let rest = b.skip(len as int);
            lemma_parse_log_encodes(rest);
            let rrs = parse_log(rest)->records;
            let rs = seq![record] + rrs;
            assert(rs.skip(1) =~= rrs);
            assert(rs[0] == record);
            assert(all_wf(rs)) by {
                assert forall|i: int| 0 <= i < rs.len() implies (#[trigger] rs[i]).wf() by {
                    if i > 0 {
                        assert(rs[i] == rrs[i - 1]);
                    }
                }
            }
            let n = parse_log(b)->len;
            assert(b.take(n as int) =~= b.take(len as int) + rest.take(parse_log(rest)->len as int));
        },
        _ => {
            assert(b.take(0) =~= Seq::<u8>::empty());
            assert(encode_log(Seq::<RecordView>::empty()) == Seq::<u8>::empty());
        },
    }
}

/// The record at some position of a log, as the parser reads it.
pub enum Parsed {
    End,
    Partial,
    Corrupt,
    Complete(Record, usize),
}

impl Parsed {
    /// What the parser found, as a mathematical value.
    pub open spec fn step(&self) -> Step {
        match self {
            Parsed::End => Step::End,
            Parsed::Partial => Step::Partial,
            Parsed::Corrupt => Step::Corrupt,
            Parsed::Complete(r, n) => Step::Complete { record: r@, len: *n as nat },
        }
    }
}

/// Copies `b[start..start + len]`.
fn copy_range(b: &[u8], start: usize, len: usize) -> (r: Vec<u8>)
    requires
        start + len <= b@.len(),
    ensures
        r@ == b@.subrange(start as int, start + len),
{
    let mut out: Vec<u8> = Vec::new();
    let mut i: usize = 0;
    let blen = b.len();
    while i < len
        invariant
            blen == b@.len(),
            i <= len,
            start + len <= b@.len(),
            out@ == b@.subrange(start as int, start + i),
        decreases len - i,
    {
        out.push(b[start + i]);
        i += 1;
        assert(out@ =~= b@.subrange(start as int, start + i));
    }
    out
}

/// Reads the record that starts at `pos` in the log `b`.
pub fn parse_record(b: &[u8], pos: usize) -> (r: Parsed)
    requires
        pos <= b@.len(),
    ensures
        r.step() == parse_step(b@.skip(pos as int)),
{
    let ghost s = b@.skip(pos as int);
    proof {
        reveal(parse_step);
    }
    let rem = b.len() - pos;
    if rem == 0 {
        return Parsed::End;
    }
    let tag = b[pos];
    if tag != TAG_PUT && tag != TAG_DELETE {
        return Parsed::Corrupt;
    }
    if rem < 5 {
        return Parsed::Partial;
    }
    assert(s.subrange(1, 5) =~= b@.subrange(pos + 1, pos + 5));
    let klen = read_le32(b, pos + 1) as usize;
    if klen == 0 {
        return Parsed::Corrupt;
    }
    if rem - 5 < klen {
        return Parsed::Partial;
    }
    let key = copy_range(b, pos + 5, klen);
    assert(key@ =~= s.subrange(5, 5 + klen));
    if tag == TAG_DELETE {
        return Parsed::Complete(Record::Delete { key }, 5 + klen);
    }
    if rem - 5 - klen < 4 {
        return Parsed::Partial;
    }
    assert(s.subrange(5 + klen, 9 + klen) =~= b@.subrange(pos + 5 + klen, pos + 9 + klen));
    let vlen = read_le32(b, pos + 5 + klen) as usize;
    if rem - 9 - klen < vlen {
        return Parsed::Partial;
    }
    let value = copy_range(b, pos + 9 + klen, vlen);
    assert(value@ =~= s.subrange(9 + klen, 9 + klen + vlen));
    Parsed::Complete(Record::Put { key, value }, 9 + klen + vlen)
}

/// The whole records of a log, and the number of bytes that they fill.
pub struct DecodedLog {
    pub records: Vec<Record>,
    pub valid_len: usize,
}

/// Reads every whole record of the log `b`, in order. A partial record at the
/// end, left by an interrupted append, is dropped; any other malformed record
/// makes the log `Corrupt`.
pub fn decode_log(b: &[u8]) -> (r: Result<DecodedLog, Error>)
    ensures
        match parse_log(b@) {
            LogParse::Valid { records, len } => r matches Ok(d) && views(d.records@) == records
                && d.valid_len == len,
            LogParse::Corrupt => r == Err::<DecodedLog, Error>(Error::Corrupt),
        },
{
    let mut records: Vec<Record> = Vec::new();
    let mut pos: usize = 0;
    let blen = b.len();
    assert(b@.skip(0) =~= b@);
    assert(views(records@) =~= Seq::<RecordView>::empty());
    assert(parse_log(b@) == prepend(views(records@), pos as nat, parse_log(b@.skip(pos as int)))) by {
        match parse_log(b@) {
            LogParse::Valid { records: rs, .. } => assert(Seq::<RecordView>::empty() + rs =~= rs),
            LogParse::Corrupt => {},
        }
    }
    loop
        invariant
            blen == b@.len(),
            pos <= b@.len(),
            parse_log(b@) == prepend(views(records@), pos as nat, parse_log(b@.skip(pos as int))),
        decreases b@.len() - pos,
    {
        let step = parse_record(b, pos);
        match step {
            Parsed::Complete(rec, n) => {
                let ghost old_views = views(records@);
                let ghost rest = b@.skip(pos as int);
                proof {
                    lemma_step_encodes(rest);
                    assert(rest.skip(n as int) =~= b@.skip(pos + n));
                }
                records.push(rec);
                pos = pos + n;
                proof {
                    assert(views(records@) =~= old_views + seq![rec@]);
                    match parse_log(b@.skip(pos as int)) {
                        LogParse::Valid { records: rs, .. } => {
                            assert(old_views + (seq![rec@] + rs) =~= views(records@) + rs);
                        },
                        LogParse::Corrupt => {},
                    }
                }
            },
            Parsed::Corrupt => {
                return Err(Error::Corrupt);
            },
            _ => {
                assert(views(records@) + Seq::<RecordView>::empty() =~= views(records@));
                return Ok(DecodedLog { records, valid_len: pos });
            },
        }
    }
}

} // verus!
