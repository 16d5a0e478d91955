use vstd::prelude::*;

use crate::codec::{le32, lemma_le32_value_of_le32};
use crate::log::{lemma_parse_log_empty, lemma_parse_log_encoded, lemma_step_of_cut, parse_log, parse_step, LogParse};
use crate::record::{all_wf, encode_log, RecordView};
use crate::store::{recover, replay};

verus! {

/// Replaying the log written for a sequence of records rebuilds exactly the
/// index that applying those records in memory builds.
pub proof fn lemma_round_trip(ops: Seq<RecordView>)
    requires
        all_wf(ops),
    ensures
        parse_log(encode_log(ops)) == (LogParse::Valid { records: ops, len: encode_log(ops).len() }),
        recover(encode_log(ops)) == Some(replay(ops)),
{
    lemma_parse_log_encoded(ops, Seq::empty());
    lemma_parse_log_empty();
    assert(encode_log(ops) + Seq::<u8>::empty() =~= encode_log(ops));
    assert(ops + Seq::<RecordView>::empty() =~= ops);
}

proof fn lemma_all_wf_push(ops: Seq<RecordView>, r: RecordView)
    requires
        all_wf(ops),
        r.wf(),
    ensures
        all_wf(ops.push(r)),
{
    assert forall|i: int| 0 <= i < ops.push(r).len() implies (#[trigger] ops.push(r)[i]).wf() by {
        if i < ops.len() {
            assert(ops.push(r)[i] == ops[i]);
        }
    }
}

/// Of two writes to one key, the log keeps the later one.
pub proof fn lemma_last_write_wins(ops: Seq<RecordView>, k: Seq<u8>, v1: Seq<u8>, v2: Seq<u8>)
    requires
        all_wf(ops),
        (RecordView::Put { key: k, value: v1 }).wf(),
        (RecordView::Put { key: k, value: v2 }).wf(),
    ensures
        ({
            let log = encode_log(
                ops.push(RecordView::Put { key: k, value: v1 }).push(RecordView::Put { key: k, value: v2 }),
            );
            recover(log) matches Some(m) && m.contains_key(k) && m[k] == v2
        }),
{
    let p1 = RecordView::Put { key: k, value: v1 };
    let p2 = RecordView::Put { key: k, value: v2 };
    let all = ops.push(p1).push(p2);
    lemma_all_wf_push(ops, p1);
    lemma_all_wf_push(ops.push(p1), p2);
    lemma_round_trip(all);
    assert(all.drop_last() =~= ops.push(p1));
}

/// A key that was written and then deleted has no value once the log is
/// replayed.
pub proof fn lemma_tombstone(ops: Seq<RecordView>, k: Seq<u8>, v: Seq<u8>)
    requires
        all_wf(ops),
        (RecordView::Put { key: k, value: v }).wf(),
    ensures
        ({
            let log = encode_log(ops.push(RecordView::Put { key: k, value: v }).push(RecordView::Delete { key: k }));
            recover(log) matches Some(m) && !m.contains_key(k)
        }),
{
    let p = RecordView::Put { key: k, value: v };
    let d = RecordView::Delete { key: k };
    let all = ops.push(p).push(d);
    lemma_all_wf_push(ops, p);
    lemma_all_wf_push(ops.push(p), d);
    lemma_round_trip(all);
    assert(all.drop_last() =~= ops.push(p));
}

/// A log cut off inside its last record opens as the records before it; the
/// part of the log that stays valid ends where the cut record began.
pub proof fn lemma_partial_tail(ops: Seq<RecordView>, r: RecordView, t: int)
    requires
        all_wf(ops),
        r.wf(),
        0 <= t < r.encode().len(),
    ensures
        parse_log(encode_log(ops) + r.encode().take(t)) == (LogParse::Valid {
            records: ops,
            len: encode_log(ops).len(),
        }),
        recover(encode_log(ops) + r.encode().take(t)) == Some(replay(ops)),
{
    lemma_parse_log_encoded(ops, r.encode().take(t));
    lemma_step_of_cut(r, t);
    assert(ops + Seq::<RecordView>::empty() =~= ops);
}

/// A record whose tag byte is neither tag makes the log corrupt, whatever
/// follows it.
pub proof fn lemma_bad_tag_corrupt(ops: Seq<RecordView>, tag: u8, rest: Seq<u8>)
    requires
        all_wf(ops),
        tag > 1,
    ensures
        parse_log(encode_log(ops) + (seq![tag] + rest)) is Corrupt,
        recover(encode_log(ops) + (seq![tag] + rest)) is None,
{
    lemma_parse_log_encoded(ops, seq![tag] + rest);
    reveal(parse_step);
}

/// A record whose key length reads zero makes the log corrupt, whatever
/// follows it.
pub proof fn lemma_zero_key_length_corrupt(ops: Seq<RecordView>, tag: u8, rest: Seq<u8>)
    requires
        all_wf(ops),
        tag <= 1,
    ensures
        parse_log(encode_log(ops) + (seq![tag] + le32(0) + rest)) is Corrupt,
        recover(encode_log(ops) + (seq![tag] + le32(0) + rest)) is None,
{
    let b = seq![tag] + le32(0) + rest;
    lemma_parse_log_encoded(ops, b);
    lemma_le32_value_of_le32(0);
    assert(b.subrange(1, 5) =~= le32(0));
    reveal(parse_step);
}

} // verus!
