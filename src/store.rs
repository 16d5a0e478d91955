use vstd::prelude::*;

use crate::error::Error;
use crate::log::{decode_log, lemma_parse_log_empty, lemma_parse_log_encoded, lemma_parse_log_encodes, parse_log, views, LogParse};
use crate::record::{all_wf, encode_log, lemma_encode_log_push, push_bytes, Record, RecordView};

verus! {

/// The index after one more record: a `Put` sets its key, a `Delete`
/// removes it.
pub open spec fn apply_record(m: Map<Seq<u8>, Seq<u8>>, r: RecordView) -> Map<Seq<u8>, Seq<u8>> {
    match r {
        RecordView::Put { key, value } => m.insert(key, value),
        RecordView::Delete { key } => m.remove(key),
    }
}

/// The index that the records `rs` build, applied in order to an empty one.
pub open spec fn replay(rs: Seq<RecordView>) -> Map<Seq<u8>, Seq<u8>>
    decreases rs.len(),
{
    if rs.len() == 0 {
        Map::empty()
    } else {
        apply_record(replay(rs.drop_last()), rs.last())
    }
}

/// The index that opening the log `b` recovers, or `None` when the log is
/// corrupt.
pub open spec fn recover(b: Seq<u8>) -> Option<Map<Seq<u8>, Seq<u8>>> {
    match parse_log(b) {
        LogParse::Valid { records, .. } => Some(replay(records)),
        LogParse::Corrupt => None,
    }
}

/// The key-value index of an append-only log.
///
/// The store holds the index in memory and keeps, as ghost state, the
/// records that the log holds. Each mutation is first encoded as a record;
/// the caller appends those bytes to the log and makes them durable, and only
/// then commits the record with `apply`.
pub struct Store {
    entries: Vec<(Vec<u8>, Vec<u8>)>,
    history: Ghost<Seq<RecordView>>,
}

impl View for Store {
    type V = Map<Seq<u8>, Seq<u8>>;

    /// The index: what the records of the log build.
    open spec fn view(&self) -> Map<Seq<u8>, Seq<u8>> {
        replay(self.history())
    }
}

/// Two positions of `es` hold different keys.
pub open spec fn keys_distinct(es: Seq<(Vec<u8>, Vec<u8>)>) -> bool {
    forall|i: int, j: int|
        0 <= i < es.len() && 0 <= j < es.len() && i != j ==> (#[trigger] es[i]).0@ != (
        #[trigger] es[j]).0@
}

impl Store {
    /// The records that the log of this store holds, in order.
    pub closed spec fn history(&self) -> Seq<RecordView> {
        self.history@
    }

    /// The bytes of the log of this store.
    pub open spec fn log(&self) -> Seq<u8> {
        encode_log(self.history())
    }

    pub closed spec fn wf(&self) -> bool {
        let es = self.entries@;
        let m = replay(self.history@);
        &&& all_wf(self.history@)
        &&& keys_distinct(es)
        &&& forall|i: int|
            0 <= i < es.len() ==> {
                &&& 0 < (#[trigger] es[i]).0@.len() <= u32::MAX
                &&& es[i].1@.len() <= u32::MAX
                &&& m.contains_key(es[i].0@)
                &&& m[es[i].0@] == es[i].1@
            }
        &&& forall|k: Seq<u8>| #[trigger]
            m.contains_key(k) ==> exists|i: int| 0 <= i < es.len() && (#[trigger] es[i]).0@ == k
    }

    /// An empty store, over an empty log.
    pub fn new() -> (s: Store)
        ensures
            s.wf(),
            s@ == Map::<Seq<u8>, Seq<u8>>::empty(),
            s.log() == Seq::<u8>::empty(),
    {
        Store { entries: Vec::new(), history: Ghost(Seq::empty()) }
    }

    /// The position of `key` among the entries.
    fn find(&self, key: &[u8]) -> (r: Option<usize>)
        requires
            self.wf(),
        ensures
            match r {
                Some(i) => i < self.entries@.len() && self.entries@[i as int].0@ == key@,
                None => forall|i: int|
                    0 <= i < self.entries@.len() ==> (#[trigger] self.entries@[i]).0@ != key@,
            },
    {
        let mut i: usize = 0;
        while i < self.entries.len()
            invariant
                i <= self.entries@.len(),
                forall|j: int| 0 <= j < i ==> (#[trigger] self.entries@[j]).0@ != key@,
            decreases self.entries@.len() - i,
        {
            if bytes_eq(self.entries[i].0.as_slice(), key) {
                return Some(i);
            }
            i += 1;
        }
        None
    }

    /// The value stored under `key`, if any.
    pub fn get(&self, key: &[u8]) -> (r: Option<&Vec<u8>>)
        requires
            self.wf(),
        ensures
            match r {
                Some(v) => self@.contains_key(key@) && v@ == self@[key@],
                None => !self@.contains_key(key@),
            },
    {
        match self.find(key) {
            Some(i) => Some(&self.entries[i].1),
            None => None,
        }
    }

    /// Whether `key` has a value.
    pub fn contains_key(&self, key: &[u8]) -> (r: bool)
        requires
            self.wf(),
        ensures
            r == self@.contains_key(key@),
    {
        self.find(key).is_some()
    }

    /// Commits `rec` to the index, once its bytes have been appended to the
    /// log. Returns whether its key had a value before.
    pub fn apply(&mut self, rec: &Record) -> (existed: bool)
        requires
            old(self).wf(),
            rec@.wf(),
        ensures
            final(self).wf(),
            final(self)@ == apply_record(old(self)@, rec@),
            final(self).history() == old(self).history().push(rec@),
            final(self).log() == old(self).log() + rec@.encode(),
            existed == old(self)@.contains_key(rec@.key()),
    {
        let ghost m0 = self@;
        let ghost es0 = self.entries@;
        let found = self.find(rec.key().as_slice());
        let existed = found.is_some();
        proof {
            if !existed {
                if m0.contains_key(rec@.key()) {
                    let i = choose|i: int| 0 <= i < es0.len() && (#[trigger] es0[i]).0@ == rec@.key();
                    assert(es0[i].0@ != rec@.key());
                }
            }
            lemma_encode_log_push(self.history@, rec@);
        }
        self.history = Ghost(self.history@.push(rec@));
        proof {
            assert(self.history@.drop_last() =~= old(self).history@);
        }
        let ghost m1 = self@;
        assert(m1 == apply_record(m0, rec@));
        match rec {
            Record::Put { key, value } => {
                let k = copy_bytes(key);
                let v = copy_bytes(value);
                match found {
                    Some(i) => {
                        self.entries.set(i, (k, v));
                    },
                    None => {
                        self.entries.push((k, v));
                    },
                }
                let ghost es1 = self.entries@;
                assert forall|k2: Seq<u8>| #[trigger] m1.contains_key(k2) implies exists|j: int|
                    0 <= j < es1.len() && (#[trigger] es1[j]).0@ == k2 by {
                    if k2 == rec@.key() {
                        match found {
                            Some(i) => assert(es1[i as int].0@ == k2),
                            None => assert(es1[es0.len() as int].0@ == k2),
                        }
                    } else {
                        assert(m0.contains_key(k2));
                        let j = choose|j: int| 0 <= j < es0.len() && (#[trigger] es0[j]).0@ == k2;
                        assert(es1[j].0@ == k2);
                    }
                }
            },
            Record::Delete { key } => {
                match found {
                    Some(i) => {
                        let _ = self.entries.swap_remove(i);
                        let ghost es1 = self.entries@;
                        let ghost last = es0.len() - 1;
                        assert forall|j: int| 0 <= j < es1.len() implies (#[trigger] es1[j]) == (
                        if j == i {
                            es0[last]
                        } else {
                            es0[j]
                        }) by {}
                        assert forall|k2: Seq<u8>| #[trigger] m1.contains_key(k2) implies exists|j: int|
                            0 <= j < es1.len() && (#[trigger] es1[j]).0@ == k2 by {
                            assert(m0.contains_key(k2));
                            let j = choose|j: int| 0 <= j < es0.len() && (#[trigger] es0[j]).0@ == k2;
                            if j == last {
                                assert(es1[i as int].0@ == k2);
                            } else {
                                assert(es1[j].0@ == k2);
                            }
                        }
                        assert(keys_distinct(es1)) by {
                            assert forall|a: int, b: int|
                                0 <= a < es1.len() && 0 <= b < es1.len() && a != b implies (
                            #[trigger] es1[a]).0@ != (#[trigger] es1[b]).0@ by {
                                let a0 = if a == i { last } else { a };
                                let b0 = if b == i { last } else { b };
                                assert(es0[a0].0@ != es0[b0].0@);
                            }
                        }
                    },
                    None => {
                        assert(m1 =~= m0);
                    },
                }
            },
        }
        existed
    }

    /// Opens the log `b`: replays its whole records, in order, into a fresh
    /// index. A partial record at the end is dropped; the second field of the
    /// result is the length of the log without it, to which the log file is to
    /// be cut before anything is appended. A malformed record before the end
    /// makes the log `Corrupt`.
    pub fn from_log(b: &[u8]) -> (r: Result<(Store, usize), Error>)
        ensures
            match parse_log(b@) {
                LogParse::Valid { records, len } => r matches Ok((s, n)) && s.wf() && s.history()
                    == records && s@ == replay(records) && n == len && s.log() == b@.take(n as int),
                LogParse::Corrupt => r == Err::<(Store, usize), Error>(Error::Corrupt),
            },
            r is Ok <==> recover(b@) is Some,
            r matches Ok((s, _)) ==> recover(b@) == Some(s@),
    {
        let decoded = decode_log(b)?;
        let ghost records = views(decoded.records@);
        proof {
            lemma_parse_log_encodes(b@);
        }
        let mut store = Store::new();
        let mut i: usize = 0;
        assert(records.take(0) =~= Seq::<RecordView>::empty());
        while i < decoded.records.len()
            invariant
                records == views(decoded.records@),
                all_wf(records),
                i <= records.len(),
                store.wf(),
                store.history() == records.take(i as int),
            decreases records.len() - i,
        {
            assert(records[i as int] == decoded.records@[i as int]@);
            store.apply(&decoded.records[i]);
            i += 1;
            assert(store.history() =~= records.take(i as int));
        }
        assert(records.take(i as int) =~= records);
        Ok((store, decoded.valid_len))
    }

    /// Rewrites the log as one `Put` record for each key of the index, and
    /// returns those bytes; the index does not change. The caller writes them
    /// to a new file and puts it in place of the log.
    pub fn compact(&mut self) -> (r: Vec<u8>)
        requires
            old(self).wf(),
        ensures
            final(self).wf(),
            final(self)@ == old(self)@,
            r@ == final(self).log(),
            recover(r@) == Some(old(self)@),
            forall|i: int|
                0 <= i < final(self).history().len() ==> {
                    let rec = #[trigger] final(self).history()[i];
                    &&& rec is Put
                    &&& old(self)@.contains_key(rec.key())
                    &&& rec->Put_value == old(self)@[rec.key()]
                },
            forall|i: int, j: int|
                0 <= i < j < final(self).history().len() ==> (#[trigger] final(self).history()[i]).key()
                    != (#[trigger] final(self).history()[j]).key(),
            forall|k: Seq<u8>|
                old(self)@.contains_key(k) ==> exists|i: int|
                    0 <= i < final(self).history().len() && (#[trigger] final(self).history()[i]).key()
                        == k,
    {
        let ghost m = self@;
        let ghost es = self.entries@;
        let mut out: Vec<u8> = Vec::new();
        let ghost mut hist: Seq<RecordView> = Seq::empty();
        let mut i: usize = 0;
        while i < self.entries.len()
            invariant
                self.wf(),
                self@ == m,
                self.entries@ == es,
                i <= es.len(),
                hist.len() == i,
                out@ == encode_log(hist),
                forall|j: int|
                    0 <= j < i ==> #[trigger] hist[j] == (RecordView::Put {
                        key: es[j].0@,
                        value: es[j].1@,
                    }),
                forall|k: Seq<u8>|
                    #[trigger] replay(hist).contains_key(k) <==> exists|j: int|
                        0 <= j < i && (#[trigger] es[j]).0@ == k,
                forall|j: int| 0 <= j < i ==> replay(hist)[(#[trigger] es[j]).0@] == es[j].1@,
            decreases es.len() - i,
        {
            let rec = Record::Put {
                key: copy_bytes(self.entries[i].0.as_slice()),
                value: copy_bytes(self.entries[i].1.as_slice()),
            };
            let bytes = rec.encode();
            push_bytes(&mut out, bytes.as_slice());
            proof {
                lemma_encode_log_push(hist, rec@);
                let old_hist = hist;
                hist = hist.push(rec@);
                assert(hist.drop_last() =~= old_hist);
                assert forall|k: Seq<u8>| #[trigger] replay(hist).contains_key(k) <==> exists|j: int|
                    0 <= j < i + 1 && (#[trigger] es[j]).0@ == k by {
                    if k != es[i as int].0@ && replay(hist).contains_key(k) {
                        let j = choose|j: int| 0 <= j < i && (#[trigger] es[j]).0@ == k;
                    }
                    if exists|j: int| 0 <= j < i + 1 && (#[trigger] es[j]).0@ == k {
                        if k != es[i as int].0@ {
                            let j = choose|j: int| 0 <= j < i + 1 && (#[trigger] es[j]).0@ == k;
                            assert(j < i);
                        }
                    }
                }
                assert forall|j: int| 0 <= j < i + 1 implies replay(hist)[(#[trigger] es[j]).0@]
                    == es[j].1@ by {
                    if j < i {
                        assert(es[j].0@ != es[i as int].0@);
                    }
                }
            }
            i += 1;
        }
        proof {
            assert(replay(hist) =~= m);
            assert(all_wf(hist));
            lemma_parse_log_encoded(hist, Seq::empty());
            assert(encode_log(hist) + Seq::<u8>::empty() =~= encode_log(hist));
            assert(hist + Seq::<RecordView>::empty() =~= hist);
            lemma_parse_log_empty();
        }
        self.history = Ghost(hist);
        proof {
            assert forall|k: Seq<u8>| m.contains_key(k) implies exists|j: int|
                0 <= j < hist.len() && (#[trigger] hist[j]).key() == k by {
                let j = choose|j: int| 0 <= j < es.len() && (#[trigger] es[j]).0@ == k;
                assert(hist[j].key() == k);
            }
            assert(self.wf());
        }
        out
    }
}

impl Store {
    /// Opening the log of a store rebuilds the index that the store holds.
    pub proof fn lemma_reopen(&self)
        requires
            self.wf(),
        ensures
            recover(self.log()) == Some(self@),
    {
        lemma_parse_log_encoded(self.history(), Seq::empty());
        lemma_parse_log_empty();
        assert(self.log() + Seq::<u8>::empty() =~= self.log());
        assert(self.history() + Seq::<RecordView>::empty() =~= self.history());
    }
}

/// Whether `a` and `b` hold the same bytes.
pub fn bytes_eq(a: &[u8], b: &[u8]) -> (r: bool)
    ensures
        r == (a@ == b@),
{
    if a.len() != b.len() {
        return false;
    }
    let mut i: usize = 0;
    while i < a.len()
        invariant
            a@.len() == b@.len(),
            i <= a@.len(),
            a@.take(i as int) == b@.take(i as int),
        decreases a@.len() - i,
    {
        if a[i] != b[i] {
            assert(a@.take(i + 1)[i as int] != b@.take(i + 1)[i as int]);
            assert(a@.take(i + 1) != b@.take(i + 1));
            return false;
        }
        i += 1;
        assert(a@.take(i as int) =~= b@.take(i as int));
    }
    assert(a@ =~= a@.take(i as int));
    assert(b@ =~= b@.take(i as int));
    true
}

/// A copy of `b`.
pub fn copy_bytes(b: &[u8]) -> (r: Vec<u8>)
    ensures
        r@ == b@,
{
    let mut out: Vec<u8> = Vec::new();
    push_bytes(&mut out, b);
    assert(out@ =~= b@);
    out
}

} // verus!
