//! The log-structured engine.
//!
//! The store keeps the bytes of its active log and an index from each live
//! key to the place of its latest `Put` record in those bytes. The log is
//! the truth: replaying it from the start rebuilds the index.
use crate::codec::command_fits;
use crate::codec::decode_prefix_spec;
use crate::codec::encode_spec;
use crate::codec::lemma_decode_prefix_encode;
use crate::codec::lemma_decode_encode;
use crate::codec::lemma_decode_prefix_sound;
use crate::codec::Command;
use crate::codec::CommandModel;
use crate::engines::KvsEngine;
use crate::error::KvStoreError;
use crate::error::Result;
use vstd::prelude::*;
use vstd::slice::slice_subrange;
use vstd::slice::slice_to_vec;

verus! {

broadcast use vstd::seq_lib::group_seq_properties;

/// Applies one record to a key-value map.
pub open spec fn apply(m: Map<Seq<char>, Seq<char>>, c: CommandModel) -> Map<Seq<char>, Seq<char>> {
    match c {
        CommandModel::Put { key, value } => m.insert(key, value),
        CommandModel::Remove { key } => m.remove(key),
        CommandModel::Get { .. } => m,
    }
}

/// The map that replaying `recs` in order onto an empty map gives.
pub open spec fn replay(recs: Seq<CommandModel>) -> Map<Seq<char>, Seq<char>>
    decreases recs.len(),
{
    if recs.len() == 0 {
        Map::empty()
    } else {
        apply(replay(recs.drop_last()), recs.last())
    }
}

/// The log that holds `recs` back to back.
pub open spec fn flatten(recs: Seq<CommandModel>) -> Seq<u8>
    decreases recs.len(),
{
    if recs.len() == 0 {
        Seq::empty()
    } else {
        flatten(recs.drop_last()) + encode_spec(recs.last())
    }
}

/// The records of a log, read from its first byte to its last, or `None`
/// where some record does not decode.
pub open spec fn parse_log(b: Seq<u8>) -> Option<Seq<CommandModel>>
    decreases b.len(),
{
    if b.len() == 0 {
        Some(Seq::empty())
    } else {
        match decode_prefix_spec(b) {
            Some((c, n)) => if 0 < n <= b.len() {
                match parse_log(b.skip(n)) {
                    Some(rest) => Some(seq![c] + rest),
                    None => None,
                }
            } else {
                None
            },
            None => None,
        }
    }
}

/// The map that opening a store on the log `b` gives, or `None` where the log
/// is corrupt.
pub open spec fn reopened(b: Seq<u8>) -> Option<Map<Seq<char>, Seq<char>>> {
    match parse_log(b) {
        Some(recs) => Some(replay(recs)),
        None => None,
    }
}

/// The bytes that applying `c` to `m` turns dead: the record of the value a
/// `Put` overwrites, or a `Remove` record itself.
pub open spec fn dead_added(m: Map<Seq<char>, Seq<char>>, c: CommandModel) -> nat {
    match c {
        CommandModel::Put { key, .. } => if m.contains_key(key) {
            encode_spec(CommandModel::Put { key, value: m[key] }).len()
        } else {
            0
        },
        CommandModel::Remove { .. } => encode_spec(c).len(),
        CommandModel::Get { .. } => 0,
    }
}

/// The dead bytes that replaying `recs` counts: every overwritten `Put`
/// record and every `Remove` record.
pub open spec fn dead_after(recs: Seq<CommandModel>) -> nat
    decreases recs.len(),
{
    if recs.len() == 0 {
        0
    } else {
        dead_after(recs.drop_last()) + dead_added(replay(recs.drop_last()), recs.last())
    }
}

/// Every record fits the encoding.
pub open spec fn all_fit(recs: Seq<CommandModel>) -> bool {
    forall|i: int| 0 <= i < recs.len() ==> #[trigger] command_fits(recs[i])
}

proof fn lemma_flatten_front(c: CommandModel, recs: Seq<CommandModel>)
    ensures
        flatten(seq![c] + recs) == encode_spec(c) + flatten(recs),
    decreases recs.len(),
{
    if recs.len() == 0 {
        assert(seq![c] + recs =~= seq![c]);
        assert(seq![c].drop_last() =~= Seq::<CommandModel>::empty());
    } else {
        let s = seq![c] + recs;
        assert(s.drop_last() =~= seq![c] + recs.drop_last());
        lemma_flatten_front(c, recs.drop_last());
    }
}

proof fn lemma_flatten_push(recs: Seq<CommandModel>, c: CommandModel)
    ensures
        flatten(recs.push(c)) == flatten(recs) + encode_spec(c),
{
    assert(recs.push(c).drop_last() =~= recs);
}

/// Parsing a log that starts with whole records reads those records first.
proof fn lemma_parse_append(done: Seq<CommandModel>, rest: Seq<u8>)
    requires
        all_fit(done),
    ensures
        parse_log(flatten(done) + rest) == match parse_log(rest) {
            Some(r) => Some(done + r),
            None => None::<Seq<CommandModel>>,
        },
    decreases done.len(),
{
    if done.len() == 0 {
        assert(flatten(done) + rest =~= rest);
        if let Some(r) = parse_log(rest) {
            assert(done + r =~= r);
        }
    } else {
        let c = done[0];
        let tail = done.skip(1);
        assert(done =~= seq![c] + tail);
        lemma_flatten_front(c, tail);
        assert(all_fit(tail)) by {
            assert forall|i: int| 0 <= i < tail.len() implies #[trigger] command_fits(tail[i]) by {
                assert(tail[i] == done[i + 1]);
            }
        }
        lemma_parse_append(tail, rest);
        let b = flatten(done) + rest;
        assert(b =~= encode_spec(c) + (flatten(tail) + rest));
        lemma_decode_prefix_encode(c, flatten(tail) + rest);
        let n = encode_spec(c).len() as int;
        assert(b.skip(n) =~= flatten(tail) + rest);
        if let Some(r) = parse_log(rest) {
            assert(seq![c] + (tail + r) =~= done + r);
        }
    }
}

/// A log that parses is the records it parses to, back to back.
proof fn lemma_parse_sound(b: Seq<u8>)
    requires
        parse_log(b) is Some,
    ensures
        flatten(parse_log(b)->0) == b,
        all_fit(parse_log(b)->0),
    decreases b.len(),
{
    if b.len() == 0 {
        assert(flatten(Seq::<CommandModel>::empty()) == Seq::<u8>::empty());
    } else {
        let (c, n) = decode_prefix_spec(b)->0;
        lemma_decode_prefix_sound(b);
        lemma_parse_sound(b.skip(n));
        let rest = parse_log(b.skip(n))->0;
        lemma_flatten_front(c, rest);
        assert(b =~= b.take(n) + b.skip(n));
        let recs = seq![c] + rest;
        assert forall|i: int| 0 <= i < recs.len() implies #[trigger] command_fits(recs[i]) by {
            if i > 0 {
                assert(recs[i] == rest[i - 1]);
            }
        }
    }
}

/// The records of a log are what parsing it gives back.
proof fn lemma_parse_flatten(recs: Seq<CommandModel>)
    requires
        all_fit(recs),
    ensures
        parse_log(flatten(recs)) == Some(recs),
{
    lemma_parse_append(recs, Seq::empty());
    assert(flatten(recs) + Seq::<u8>::empty() =~= flatten(recs));
    assert(recs + Seq::<CommandModel>::empty() =~= recs);
}

/// One step of reading a log: the record at `pos`, then the rest.
proof fn lemma_parse_step(b: Seq<u8>, pos: int, recs: Seq<CommandModel>)
    requires
        0 <= pos < b.len(),
        decode_prefix_spec(b.skip(pos)) is Some,
        parse_log(b) == match parse_log(b.skip(pos)) {
            Some(r) => Some(recs + r),
            None => None::<Seq<CommandModel>>,
        },
    ensures
        ({
            let (c, n) = decode_prefix_spec(b.skip(pos))->0;
            &&& 0 < n && pos + n <= b.len()
            &&& command_fits(c)
            &&& b.subrange(pos, pos + n) == encode_spec(c)
            &&& parse_log(b) == match parse_log(b.skip(pos + n)) {
                Some(r) => Some(recs.push(c) + r),
                None => None::<Seq<CommandModel>>,
            }
        }),
{
    let rest = b.skip(pos);
    let (c, n) = decode_prefix_spec(rest)->0;
    lemma_decode_prefix_sound(rest);
    assert(rest.skip(n) =~= b.skip(pos + n));
    assert(b.subrange(pos, pos + n) =~= rest.take(n));
    if let Some(r) = parse_log(b.skip(pos + n)) {
        assert(recs.push(c) + r =~= recs + (seq![c] + r));
    }
}

/// Appending one record to a log that opens applies that record to what it
/// opens to.
pub proof fn lemma_reopen_append(log: Seq<u8>, c: CommandModel)
    requires
        reopened(log) is Some,
        command_fits(c),
    ensures
        reopened(log + encode_spec(c)) == Some(apply(reopened(log)->0, c)),
{
    let recs = parse_log(log)->0;
    lemma_parse_sound(log);
    lemma_flatten_push(recs, c);
    let recs2 = recs.push(c);
    assert(all_fit(recs2)) by {
        assert forall|i: int| 0 <= i < recs2.len() implies #[trigger] command_fits(recs2[i]) by {
            if i < recs.len() {
                assert(recs2[i] == recs[i]);
            }
        }
    }
    lemma_parse_flatten(recs2);
    assert(recs2.drop_last() =~= recs);
}

/// Dead bytes in the log above which compaction is due.
pub const COMPACTION_THRESHOLD: usize = 1048576;

/// Where the latest `Put` record of a key lies in the log.
pub struct IndexEntry {
    pub key: String,
    pub start: usize,
    pub len: usize,
}

/// The bytes that the records of `entries` take.
pub open spec fn live_bytes(entries: Seq<IndexEntry>) -> int
    decreases entries.len(),
{
    if entries.len() == 0 {
        0
    } else {
        live_bytes(entries.drop_last()) + entries.last().len
    }
}

proof fn lemma_live_bytes_nonneg(s: Seq<IndexEntry>)
    ensures
        live_bytes(s) >= 0,
    decreases s.len(),
{
    if s.len() > 0 {
        lemma_live_bytes_nonneg(s.drop_last());
    }
}

proof fn lemma_live_bytes_update(s: Seq<IndexEntry>, i: int, e: IndexEntry)
    requires
        0 <= i < s.len(),
    ensures
        live_bytes(s.update(i, e)) == live_bytes(s) - s[i].len + e.len,
        s[i].len <= live_bytes(s),
    decreases s.len(),
{
    lemma_live_bytes_nonneg(s.drop_last());
    if i == s.len() - 1 {
        assert(s.update(i, e).drop_last() =~= s.drop_last());
    } else {
        assert(s.update(i, e).drop_last() =~= s.drop_last().update(i, e));
        lemma_live_bytes_update(s.drop_last(), i, e);
    }
}

proof fn lemma_live_bytes_remove(s: Seq<IndexEntry>, i: int)
    requires
        0 <= i < s.len(),
    ensures
        live_bytes(s.remove(i)) == live_bytes(s) - s[i].len,
    decreases s.len(),
{
    if i == s.len() - 1 {
        assert(s.remove(i) =~= s.drop_last());
    } else {
        assert(s.remove(i).drop_last() =~= s.drop_last().remove(i));
        lemma_live_bytes_remove(s.drop_last(), i);
    }
}

proof fn lemma_live_bytes_take(s: Seq<IndexEntry>, i: int)
    requires
        0 <= i < s.len(),
    ensures
        live_bytes(s.take(i + 1)) == live_bytes(s.take(i)) + s[i].len,
        live_bytes(s.take(i + 1)) <= live_bytes(s),
    decreases s.len() - i,
{
    assert(s.take(i + 1).drop_last() =~= s.take(i));
    if i + 1 == s.len() {
        assert(s.take(i + 1) =~= s);
    } else {
        lemma_live_bytes_take(s, i + 1);
        lemma_live_bytes_nonneg(s.take(i + 1));
        assert(s.take(i + 2).drop_last() =~= s.take(i + 1));
    }
}

proof fn lemma_live_bytes_push(s: Seq<IndexEntry>, e: IndexEntry)
    ensures
        live_bytes(s.push(e)) == live_bytes(s) + e.len,
{
    assert(s.push(e).drop_last() =~= s);
}

/// The record of `e` is the latest value of its key in `m`, at its place in
/// `log`.
pub open spec fn entry_ok(log: Seq<u8>, m: Map<Seq<char>, Seq<char>>, e: IndexEntry) -> bool {
    let c = CommandModel::Put { key: e.key@, value: m[e.key@] };
    &&& m.contains_key(e.key@)
    &&& e.start + e.len <= log.len()
    &&& command_fits(c)
    &&& log.subrange(e.start as int, e.start + e.len) == encode_spec(c)
}

/// A log-structured key-value store.
///
/// It holds the bytes of its active log, an index from each live key to its
/// latest `Put` record there, and a count of the dead bytes in the log.
pub struct KvStore {
    log: Vec<u8>,
    index: Vec<IndexEntry>,
    uncompacted: usize,
    records: Ghost<Seq<CommandModel>>,
}

impl View for KvStore {
    type V = Map<Seq<char>, Seq<char>>;

    /// The key-value map: the records of the log replayed in order.
    closed spec fn view(&self) -> Map<Seq<char>, Seq<char>> {
        replay(self.records@)
    }
}

impl KvStore {
    /// The bytes of the active log.
    pub closed spec fn log_view(&self) -> Seq<u8> {
        self.log@
    }

    /// The count of dead bytes in the log.
    pub closed spec fn dead_bytes(&self) -> nat {
        self.uncompacted as nat
    }

    /// The live keys, in the order of the index.
    pub closed spec fn keys(&self) -> Seq<Seq<char>> {
        Seq::new(self.index@.len(), |j: int| self.index@[j].key@)
    }

    /// One `Put` record for each live key, in the order of the index: what a
    /// compacted log holds.
    pub open spec fn live_records(&self) -> Seq<CommandModel> {
        Seq::new(
            self.keys().len(),
            |j: int| CommandModel::Put { key: self.keys()[j], value: self@[self.keys()[j]] },
        )
    }

    /// `self` is what compacting `before` gives: the same map and keys, a log
    /// of one `Put` record per live key, and no dead bytes.
    pub open spec fn is_compaction_of(&self, before: KvStore) -> bool {
        &&& self.wf()
        &&& self@ == before@
        &&& self.keys() == before.keys()
        &&& self.log_view() == flatten(before.live_records())
        &&& self.dead_bytes() == 0
    }

    /// The log, the index and the count agree.
    pub closed spec fn wf(&self) -> bool {
        &&& self.log@ == flatten(self.records@)
        &&& all_fit(self.records@)
        &&& forall|i: int, j: int|
            0 <= i < j < self.index.len() ==> #[trigger] self.index@[i].key@
                != #[trigger] self.index@[j].key@
        &&& forall|i: int|
            0 <= i < self.index.len() ==> entry_ok(self.log@, self@, #[trigger] self.index@[i])
        &&& forall|k: Seq<char>|
            #[trigger] self@.contains_key(k) ==> exists|i: int|
                0 <= i < self.index.len() && #[trigger] self.index@[i].key@ == k
        &&& self.uncompacted + live_bytes(self.index@) <= self.log.len()
    }

    /// The keys of the index are the keys of the map, each once; so a
    /// compacted log holds one `Put` record per key of the map, and no other.
    pub proof fn lemma_keys(&self)
        requires
            self.wf(),
        ensures
            self.keys().no_duplicates(),
            forall|k: Seq<char>| #[trigger] self@.contains_key(k) <==> self.keys().contains(k),
            self.live_records().len() == self.keys().len(),
            forall|j: int|
                0 <= j < self.live_records().len() ==> #[trigger] self.live_records()[j]
                    == (CommandModel::Put { key: self.keys()[j], value: self@[self.keys()[j]] }),
    {
        let ks = self.keys();
        assert forall|a: int, b: int| 0 <= a < ks.len() && 0 <= b < ks.len() && a != b implies ks[a]
            != ks[b] by {
            if a < b {
                assert(self.index@[a].key@ != self.index@[b].key@);
            } else {
                assert(self.index@[b].key@ != self.index@[a].key@);
            }
        }
        assert forall|k: Seq<char>| #[trigger] self@.contains_key(k) <==> ks.contains(k) by {
            if self@.contains_key(k) {
                let i = choose|i: int| 0 <= i < self.index.len() && #[trigger] self.index@[i].key@ == k;
                assert(ks[i] == k);
            }
            if ks.contains(k) {
                let i = choose|i: int| 0 <= i < ks.len() && ks[i] == k;
                assert(entry_ok(self.log@, self@, self.index@[i]));
            }
        }
    }

    /// Reopening is durable: whatever `set`s and `remove`s made a store, its
    /// log opens to exactly the map that the store holds.
    pub proof fn lemma_reopen(&self)
        requires
            self.wf(),
        ensures
            reopened(self.log_view()) == Some(self@),
    {
        lemma_parse_flatten(self.records@);
    }

    /// Opens a store on the bytes of a log: replays every record from the
    /// first byte, in order, to rebuild the index and the count of dead bytes.
    /// A record that does not decode is `CorruptionError`.
    #[verifier::rlimit(40)]
    pub fn open(log: Vec<u8>) -> (r: Result<KvStore>)
        ensures
            r is Ok <==> reopened(log@) is Some,
            r matches Ok(s) ==> s.wf() && s.log_view() == log@ && Some(s@) == reopened(log@)
                && s.dead_bytes() == dead_after(parse_log(log@)->0),
            r matches Err(e) ==> e is CorruptionError,
    {
        let mut store = KvStore {
            log: Vec::new(),
            index: Vec::new(),
            uncompacted: 0,
            records: Ghost(Seq::empty()),
        };
        proof {
            assert(log@.skip(0) =~= log@);
            if let Some(r) = parse_log(log@) {
                assert(Seq::<CommandModel>::empty() + r =~= r);
            }
            assert(store.log@ =~= log@.take(0));
        }
        let mut pos: usize = 0;
        while pos < log.len()
            invariant
                pos <= log@.len(),
                store.wf(),
                store.uncompacted == dead_after(store.records@),
                store.log@ == log@.take(pos as int),
                parse_log(log@) == match parse_log(log@.skip(pos as int)) {
                    Some(r) => Some(store.records@ + r),
                    None => None::<Seq<CommandModel>>,
                },
            decreases log.len() - pos,
        {
            match Command::decode_at(log.as_slice(), pos) {
                None => {
                    return Err(KvStoreError::CorruptionError);
                },
                Some((cmd, next)) => {
                    let ghost before = store.records@;
                    proof {
                        lemma_parse_step(log@, pos as int, store.records@);
                    }
                    let rec = slice_to_vec(slice_subrange(log.as_slice(), pos, next));
                    store.append_record(cmd, rec);
                    proof {
                        assert(store.records@.drop_last() =~= before);
                        assert(store.log@ =~= log@.take(next as int));
                    }
                    pos = next;
                },
            }
        }
        proof {
            assert(log@.take(pos as int) =~= log@);
            assert(log@.skip(pos as int) =~= Seq::<u8>::empty());
            assert(store.records@ + Seq::<CommandModel>::empty() =~= store.records@);
            store.lemma_reopen();
        }
        Ok(store)
    }

    /// Gets the value of a key by reading its latest `Put` record from the
    /// log; a key without a value is `KeyNotFoundError`.
    pub fn get(&self, key: String) -> (r: Result<Option<String>>)
        requires
            self.wf(),
        ensures
            self@.contains_key(key@) ==> (r matches Ok(Some(v)) && v@ == self@[key@]),
            !self@.contains_key(key@) ==> r matches Err(KvStoreError::KeyNotFoundError),
    {
        match self.find(&key) {
            None => {
                proof {
                    self.lemma_find_none(key@);
                }
                Err(KvStoreError::KeyNotFoundError)
            },
            Some(i) => {
                let start = self.index[i].start;
                let len = self.index[i].len;
                let ghost c = CommandModel::Put { key: key@, value: self@[key@] };
                proof {
                    assert(entry_ok(self.log@, self@, self.index@[i as int]));
                    lemma_decode_encode(c);
                }
                let bytes = slice_subrange(self.log.as_slice(), start, start + len);
                match Command::decode(bytes) {
                    Some(Command::Put { key: _, value }) => Ok(Some(value)),
                    _ => Err(KvStoreError::CorruptionError),
                }
            },
        }
    }

    /// Sets the value of a key: appends a `Put` record to the log, then points
    /// the index at it. The record of an earlier value becomes dead bytes.
    /// Fails, and changes nothing, only where the log would outgrow memory.
    pub fn set(&mut self, key: String, value: String) -> (r: Result<()>)
        requires
            old(self).wf(),
        ensures
            final(self).wf(),
            r is Ok <==> old(self).log_view().len() + encode_spec(
                CommandModel::Put { key: key@, value: value@ },
            ).len() <= usize::MAX,
            r is Ok ==> {
                &&& final(self)@ == old(self)@.insert(key@, value@)
                &&& final(self).log_view() == old(self).log_view() + encode_spec(
                    CommandModel::Put { key: key@, value: value@ },
                )
                &&& final(self).dead_bytes() == old(self).dead_bytes() + dead_added(
                    old(self)@,
                    CommandModel::Put { key: key@, value: value@ },
                )
            },
            r matches Err(e) ==> e is StringError,
            r is Err ==> *final(self) == *old(self),
    {
        let cmd = Command::Put { key, value };
        let rec = cmd.encode();
        if rec.len() > usize::MAX - self.log.len() {
            return Err(KvStoreError::StringError("the log is full".to_string()));
        }
        self.append_record(cmd, rec);
        Ok(())
    }

    /// Removes a key: appends a `Remove` record to the log and drops the key
    /// from the index. A key without a value is `KeyNotFoundError`, and then
    /// nothing is written. Fails, and changes nothing, where the log would
    /// outgrow memory.
    pub fn remove(&mut self, key: String) -> (r: Result<()>)
        requires
            old(self).wf(),
        ensures
            final(self).wf(),
            !old(self)@.contains_key(key@) <==> r matches Err(KvStoreError::KeyNotFoundError),
            old(self)@.contains_key(key@) ==> (r is Ok <==> old(self).log_view().len()
                + encode_spec(CommandModel::Remove { key: key@ }).len() <= usize::MAX),
            r is Ok ==> {
                &&& final(self)@ == old(self)@.remove(key@)
                &&& final(self).log_view() == old(self).log_view() + encode_spec(
                    CommandModel::Remove { key: key@ },
                )
                &&& final(self).dead_bytes() == old(self).dead_bytes() + encode_spec(
                    CommandModel::Remove { key: key@ },
                ).len()
            },
            r is Err ==> *final(self) == *old(self),
    {
        match self.find(&key) {
            None => {
                proof {
                    self.lemma_find_none(key@);
                }
                Err(KvStoreError::KeyNotFoundError)
            },
            Some(_) => {
                let cmd = Command::Remove { key };
                let rec = cmd.encode();
                if rec.len() > usize::MAX - self.log.len() {
                    return Err(KvStoreError::StringError("the log is full".to_string()));
                }
                self.append_record(cmd, rec);
                Ok(())
            },
        }
    }

    /// Rewrites the log to hold one `Put` record per live key, in the order
    /// of the index, and points the index at the new places. The map is
    /// unchanged and the count of dead bytes starts again from zero.
    #[verifier::rlimit(40)]
    pub fn compact(&mut self)
        requires
            old(self).wf(),
        ensures
            final(self).is_compaction_of(*old(self)),
    {
        let ghost m = self@;
        let ghost live = self.live_records();
        let mut new_log: Vec<u8> = Vec::new();
        let mut new_index: Vec<IndexEntry> = Vec::new();
        let ghost mut new_recs: Seq<CommandModel> = Seq::empty();
        let mut i: usize = 0;
        proof {
            assert(self.index@.take(0) =~= Seq::<IndexEntry>::empty());
            assert(new_recs =~= live.take(0));
        }
        while i < self.index.len()
            invariant
                self.wf(),
                m == self@,
                live == self.live_records(),
                i <= self.index.len(),
                new_index.len() == i,
                new_recs == live.take(i as int),
                all_fit(new_recs),
                new_log@ == flatten(new_recs),
                new_log.len() == live_bytes(new_index@),
                live_bytes(new_index@) == live_bytes(self.index@.take(i as int)),
                forall|j: int|
                    0 <= j < i ==> #[trigger] new_index@[j].key@ == self.index@[j].key@
                        && entry_ok(new_log@, m, new_index@[j]),
                forall|k: Seq<char>|
                    #[trigger] replay(new_recs).contains_key(k) <==> exists|j: int|
                        0 <= j < i && #[trigger] self.index@[j].key@ == k,
                forall|k: Seq<char>|
                    #[trigger] replay(new_recs).contains_key(k) ==> replay(new_recs)[k] == m[k],
            decreases self.index.len() - i,
        {
            let start = self.index[i].start;
            let len = self.index[i].len;
            let ghost k = self.index@[i as int].key@;
            let ghost c = CommandModel::Put { key: k, value: m[k] };
            proof {
                assert(entry_ok(self.log@, m, self.index@[i as int]));
                lemma_live_bytes_take(self.index@, i as int);
            }
            let mut chunk = slice_to_vec(slice_subrange(self.log.as_slice(), start, start + len));
            let new_start = new_log.len();
            let ghost prev_log = new_log@;
            let ghost prev_index = new_index@;
            let ghost prev_recs = new_recs;
            new_log.append(&mut chunk);
            let key = self.index[i].key.clone();
            new_index.push(IndexEntry { key, start: new_start, len });
            proof {
                new_recs = new_recs.push(c);
                lemma_flatten_push(prev_recs, c);
                lemma_live_bytes_push(prev_index, new_index@[i as int]);
                assert(new_recs =~= live.take(i + 1));
                assert(new_recs.drop_last() =~= prev_recs);
                assert forall|j: int| 0 <= j < new_recs.len() implies #[trigger] command_fits(new_recs[j]) by {
                    if j < i {
                        assert(new_recs[j] == prev_recs[j]);
                    }
                }
                assert forall|j: int| 0 <= j <= i implies #[trigger] new_index@[j].key@ == self.index@[j].key@
                    && entry_ok(new_log@, m, new_index@[j]) by {
                    if j < i {
                        assert(new_index@[j] == prev_index[j]);
                        assert(prev_index[j].key@ == self.index@[j].key@ && entry_ok(prev_log, m, prev_index[j]));
                        assert(new_log@.subrange(new_index@[j].start as int, new_index@[j].start + new_index@[j].len)
                            =~= prev_log.subrange(new_index@[j].start as int, new_index@[j].start + new_index@[j].len));
                    } else {
                        assert(new_log@.subrange(new_start as int, new_start + len) =~= encode_spec(c));
                    }
                }
                assert(replay(new_recs) == replay(prev_recs).insert(k, m[k]));
                assert forall|kk: Seq<char>| #[trigger] replay(new_recs).contains_key(kk) <==> exists|j: int|
                    0 <= j < i + 1 && #[trigger] self.index@[j].key@ == kk by {
                    if kk != k && replay(new_recs).contains_key(kk) {
                        assert(replay(prev_recs).contains_key(kk));
                        let j = choose|j: int| 0 <= j < i && #[trigger] self.index@[j].key@ == kk;
                        assert(0 <= j < i + 1 && self.index@[j].key@ == kk);
                    }
                    if kk == k {
                        assert(0 <= i < i + 1 && self.index@[i as int].key@ == kk);
                    }
                }
            }
            i = i + 1;
        }
        proof {
            assert(new_recs =~= live);
            assert(replay(new_recs) =~= m) by {
                assert forall|kk: Seq<char>| m.contains_key(kk) implies #[trigger] replay(new_recs).contains_key(kk) by {
                    let j = choose|j: int| 0 <= j < self.index.len() && #[trigger] self.index@[j].key@ == kk;
                    assert(self.index@[j].key@ == kk);
                }
                assert forall|kk: Seq<char>| #[trigger] replay(new_recs).contains_key(kk) implies m.contains_key(kk) by {
                    let j = choose|j: int| 0 <= j < self.index.len() && #[trigger] self.index@[j].key@ == kk;
                    assert(entry_ok(self.log@, m, self.index@[j]));
                }
            }
            assert forall|a: int, b: int| 0 <= a < b < new_index.len() implies #[trigger] new_index@[a].key@
                != #[trigger] new_index@[b].key@ by {
                assert(new_index@[a].key@ == self.index@[a].key@);
                assert(new_index@[b].key@ == self.index@[b].key@);
            }
            assert(self.index@.take(self.index.len() as int) =~= self.index@);
        }
        let ghost old_keys = self.keys();
        let ghost old_index = self.index@;
        self.log = new_log;
        self.index = new_index;
        self.uncompacted = 0;
        self.records = Ghost(new_recs);
        proof {
            assert(self.keys() =~= old_keys);
            assert forall|kk: Seq<char>| #[trigger] self@.contains_key(kk) implies exists|j: int|
                0 <= j < self.index.len() && #[trigger] self.index@[j].key@ == kk by {
                let j = choose|j: int| 0 <= j < old_index.len() && #[trigger] old_index[j].key@ == kk;
                assert(self.index@[j].key@ == old_keys[j]);
                assert(self.index@[j].key@ == kk);
            }
        }
    }

    /// Whether the key has a value.
    pub fn contains_key(&self, key: &String) -> (r: bool)
        requires
            self.wf(),
        ensures
            r == self@.contains_key(key@),
    {
        match self.find(key) {
            Some(i) => {
                proof {
                    self.lemma_find_some(i as int);
                }
                true
            },
            None => {
                proof {
                    self.lemma_find_none(key@);
                }
                false
            },
        }
    }

    /// Whether the dead bytes of the log have passed the compaction threshold.
    pub fn needs_compaction(&self) -> (r: bool)
        ensures
            r == (self.dead_bytes() > COMPACTION_THRESHOLD),
    {
        self.uncompacted > COMPACTION_THRESHOLD
    }

    /// The bytes of the active log.
    pub fn log(&self) -> (r: &[u8])
        ensures
            r@ == self.log_view(),
    {
        self.log.as_slice()
    }

    /// The count of dead bytes in the log.
    pub fn uncompacted_bytes(&self) -> (r: usize)
        ensures
            r == self.dead_bytes(),
    {
        self.uncompacted
    }

    fn find(&self, key: &String) -> (r: Option<usize>)
        ensures
            r matches Some(i) ==> i < self.index.len() && self.index@[i as int].key@ == key@,
            r is None ==> forall|i: int|
                0 <= i < self.index.len() ==> self.index@[i].key@ != key@,
    {
        let mut i: usize = 0;
        while i < self.index.len()
            invariant
                i <= self.index.len(),
                forall|j: int| 0 <= j < i ==> self.index@[j].key@ != key@,
            decreases self.index.len() - i,
        {
            if self.index[i].key == *key {
                return Some(i);
            }
            i = i + 1;
        }
        None
    }

    proof fn lemma_find_none(&self, key: Seq<char>)
        requires
            self.wf(),
            forall|i: int| 0 <= i < self.index.len() ==> self.index@[i].key@ != key,
        ensures
            !self@.contains_key(key),
    {
    }

    proof fn lemma_find_some(&self, i: int)
        requires
            self.wf(),
            0 <= i < self.index.len(),
        ensures
            self@.contains_key(self.index@[i].key@),
            self.index@[i].len == encode_spec(
                CommandModel::Put { key: self.index@[i].key@, value: self@[self.index@[i].key@] },
            ).len(),
    {
        let e = self.index@[i];
        assert(entry_ok(self.log@, self@, e));
        assert(self.log@.subrange(e.start as int, e.start + e.len).len() == e.len);
    }

    /// Appends one encoded record to the log and brings the index and the
    /// count of dead bytes up to date with it.
    fn append_record(&mut self, cmd: Command, rec: Vec<u8>)
        requires
            old(self).wf(),
            rec@ == encode_spec(cmd@),
            command_fits(cmd@),
            old(self).log_view().len() + rec@.len() <= usize::MAX,
        ensures
            final(self).wf(),
            final(self).log_view() == old(self).log_view() + rec@,
            final(self).records@ == old(self).records@.push(cmd@),
            final(self)@ == apply(old(self)@, cmd@),
            final(self).dead_bytes() == old(self).dead_bytes() + dead_added(old(self)@, cmd@),
    {
        let ghost old_self = *self;
        let ghost old_log = self.log@;
        let ghost old_view = self@;
        let ghost c = cmd@;
        let start = self.log.len();
        let len = rec.len();
        let mut rec = rec;
        self.log.append(&mut rec);
        proof {
            lemma_flatten_push(self.records@, c);
            let recs = self.records@.push(c);
            assert(recs.drop_last() =~= self.records@);
            assert forall|i: int| 0 <= i < recs.len() implies #[trigger] command_fits(recs[i]) by {
                if i < self.records@.len() {
                    assert(recs[i] == self.records@[i]);
                }
            }
            self.records@ = recs;
            assert forall|i: int| 0 <= i < self.index.len() implies self.log@.subrange(
                self.index@[i].start as int,
                self.index@[i].start + self.index@[i].len,
            ) == old_log.subrange(
                self.index@[i].start as int,
                self.index@[i].start + self.index@[i].len,
            ) by {
                assert(entry_ok(old_log, old_view, old_self.index@[i]));
                assert(self.log@.subrange(
                    self.index@[i].start as int,
                    self.index@[i].start + self.index@[i].len,
                ) =~= old_log.subrange(
                    self.index@[i].start as int,
                    self.index@[i].start + self.index@[i].len,
                ));
            }
            assert(self.log@.subrange(start as int, start + len) =~= encode_spec(c));
            lemma_live_bytes_nonneg(self.index@);
        }
        match cmd {
            Command::Put { key, value } => {
                let entry = IndexEntry { key, start, len };
                let ghost mut at: int = 0;
                match self.find(&entry.key) {
                    Some(i) => {
                        proof {
                            old_self.lemma_find_some(i as int);
                            lemma_live_bytes_update(self.index@, i as int, entry);
                        }
                        let old_len = self.index[i].len;
                        self.uncompacted = self.uncompacted + old_len;
                        self.index.set(i, entry);
                        proof {
                            at = i as int;
                        }
                    },
                    None => {
                        proof {
                            old_self.lemma_find_none(entry.key@);
                            lemma_live_bytes_push(self.index@, entry);
                        }
                        self.index.push(entry);
                        proof {
                            at = self.index.len() - 1;
                        }
                    },
                }
                proof {
                    let k = c->Put_key;
                    assert forall|i: int| 0 <= i < self.index.len() implies entry_ok(
                        self.log@,
                        self@,
                        #[trigger] self.index@[i],
                    ) by {
                        if self.index@[i].key@ != k {
                            assert(old_self.index@.contains(self.index@[i])) by {
                                let j = choose|j: int| 0 <= j < old_self.index.len() && old_self.index@[j] == self.index@[i];
                                assert(old_self.index@[i] == self.index@[i]);
                            }
                            assert(entry_ok(old_log, old_view, old_self.index@[i]));
                        }
                    }
                    assert forall|kk: Seq<char>| #[trigger] self@.contains_key(kk) implies exists|i: int|
                        0 <= i < self.index.len() && #[trigger] self.index@[i].key@ == kk by {
                        if kk != k {
                            let j = choose|j: int| 0 <= j < old_self.index.len() && #[trigger] old_self.index@[j].key@ == kk;
                            assert(self.index@[j].key@ == kk);
                        } else {
                            assert(self.index@[at].key@ == kk);
                        }
                    }
                }
            },
            Command::Remove { key } => {
                self.uncompacted = self.uncompacted + len;
                assert(self.index@ == old_self.index@);
                assert(key@ == c->Remove_key);
                match self.find(&key) {
                    Some(i) => {
                        proof {
                            old_self.lemma_find_some(i as int);
                            lemma_live_bytes_remove(self.index@, i as int);
                            lemma_live_bytes_update(self.index@, i as int, self.index@[i as int]);
                        }
                        self.index.remove(i);
                    },
                    None => {
                        proof {
                            old_self.lemma_find_none(key@);
                            assert(self@ =~= old_view);
                        }
                    },
                }
                proof {
                    let k = c->Remove_key;
                    assert forall|i: int| 0 <= i < self.index.len() implies entry_ok(
                        self.log@,
                        self@,
                        #[trigger] self.index@[i],
                    ) by {
                        let j = if self.index.len() == old_self.index.len() || i < self.index.len() && self.index@[i] == old_self.index@[i] { i } else { i + 1 };
                        assert(self.index@[i] == old_self.index@[j]);
                        assert(entry_ok(old_log, old_view, old_self.index@[j]));
                        assert(self.index@[i].key@ != k);
                    }
                    assert forall|kk: Seq<char>| #[trigger] self@.contains_key(kk) implies exists|i: int|
                        0 <= i < self.index.len() && #[trigger] self.index@[i].key@ == kk by {
                        let j = choose|j: int| 0 <= j < old_self.index.len() && #[trigger] old_self.index@[j].key@ == kk;
                        if self.index.len() == old_self.index.len() {
                            assert(self.index@[j].key@ == kk);
                        } else {
                            let r = choose|r: int| 0 <= r < old_self.index.len() && old_self.index@[r].key@ == k;
                            if j < r {
                                assert(self.index@[j].key@ == kk);
                            } else {
                                assert(self.index@[j - 1].key@ == kk);
                            }
                        }
                    }
                }
            },
            Command::Get { .. } => {
                proof {
                    assert(self@ =~= old_view);
                }
            },
        }
    }
}

/// Applies `ops` in order to `m`.
pub open spec fn apply_all(m: Map<Seq<char>, Seq<char>>, ops: Seq<CommandModel>) -> Map<
    Seq<char>,
    Seq<char>,
>
    decreases ops.len(),
{
    if ops.len() == 0 {
        m
    } else {
        apply(apply_all(m, ops.drop_last()), ops.last())
    }
}

/// Durability over any sequence of writes: appending the records of `ops`
/// to a log that opens gives a log that opens to the map with `ops`
/// applied in order.
pub proof fn lemma_durable_sequence(log: Seq<u8>, ops: Seq<CommandModel>)
    requires
        reopened(log) is Some,
        all_fit(ops),
    ensures
        reopened(log + flatten(ops)) == Some(apply_all(reopened(log)->0, ops)),
    decreases ops.len(),
{
    if ops.len() == 0 {
        assert(log + flatten(ops) =~= log);
    } else {
        let front = ops.drop_last();
        assert(all_fit(front)) by {
            assert forall|i: int| 0 <= i < front.len() implies #[trigger] command_fits(front[i]) by {
                assert(front[i] == ops[i]);
            }
        }
        lemma_durable_sequence(log, front);
        assert(command_fits(ops[ops.len() - 1]));
        lemma_reopen_append(log + flatten(front), ops.last());
        assert(log + flatten(ops) =~= (log + flatten(front)) + encode_spec(ops.last()));
    }
}

/// Overwriting: after `Put(k, v1)` then `Put(k, v2)`, the key holds `v2`, both
/// in the map that the store holds and in what its log reopens to.
pub proof fn lemma_overwrite(log: Seq<u8>, k: Seq<char>, v1: Seq<char>, v2: Seq<char>)
    requires
        reopened(log) is Some,
        command_fits(CommandModel::Put { key: k, value: v1 }),
        command_fits(CommandModel::Put { key: k, value: v2 }),
    ensures
        ({
            let m = reopened(log)->0;
            let c1 = CommandModel::Put { key: k, value: v1 };
            let c2 = CommandModel::Put { key: k, value: v2 };
            &&& apply(apply(m, c1), c2) == m.insert(k, v2)
            &&& reopened(log + encode_spec(c1) + encode_spec(c2)) == Some(m.insert(k, v2))
            &&& m.insert(k, v2)[k] == v2
        }),
{
    let m = reopened(log)->0;
    let c1 = CommandModel::Put { key: k, value: v1 };
    let c2 = CommandModel::Put { key: k, value: v2 };
    lemma_reopen_append(log, c1);
    lemma_reopen_append(log + encode_spec(c1), c2);
    assert(m.insert(k, v1).insert(k, v2) =~= m.insert(k, v2));
}

/// Two writers of one key: whichever of the two `Put`s reaches the log
/// last, the log holds both records after what it held before, whole and in
/// that order, and reopens with the key holding the value written last, one
/// of the two.
pub proof fn lemma_concurrent_puts(log: Seq<u8>, k: Seq<char>, first: Seq<char>, second: Seq<char>)
    requires
        reopened(log) is Some,
        command_fits(CommandModel::Put { key: k, value: first }),
        command_fits(CommandModel::Put { key: k, value: second }),
    ensures
        ({
            let c1 = CommandModel::Put { key: k, value: first };
            let c2 = CommandModel::Put { key: k, value: second };
            let both = log + encode_spec(c1) + encode_spec(c2);
            &&& parse_log(both) == Some(parse_log(log)->0.push(c1).push(c2))
            &&& reopened(both)->0[k] == second
            &&& reopened(both)->0.contains_key(k)
        }),
{
    let c1 = CommandModel::Put { key: k, value: first };
    let c2 = CommandModel::Put { key: k, value: second };
    let recs = parse_log(log)->0;
    lemma_parse_sound(log);
    let all = recs.push(c1).push(c2);
    lemma_flatten_push(recs, c1);
    lemma_flatten_push(recs.push(c1), c2);
    assert(all_fit(all)) by {
        assert forall|i: int| 0 <= i < all.len() implies #[trigger] command_fits(all[i]) by {
            if i < recs.len() {
                assert(all[i] == recs[i]);
            }
        }
    }
    lemma_parse_flatten(all);
    lemma_overwrite(log, k, first, second);
}

/// Removing: after `Remove(k)` the key has no value, both in the map that the
/// store holds and in what its log reopens to.
pub proof fn lemma_remove_absent(log: Seq<u8>, k: Seq<char>)
    requires
        reopened(log) is Some,
        command_fits(CommandModel::Remove { key: k }),
    ensures
        ({
            let m = reopened(log)->0;
            let c = CommandModel::Remove { key: k };
            &&& reopened(log + encode_spec(c)) == Some(m.remove(k))
            &&& !m.remove(k).contains_key(k)
        }),
{
    lemma_reopen_append(log, CommandModel::Remove { key: k });
}

/// Compaction is idempotent: compacting a compacted store again changes
/// neither its map nor its log, and both logs reopen to the map of the store
/// before compaction.
pub proof fn lemma_compaction_idempotent(s0: KvStore, s1: KvStore, s2: KvStore)
    requires
        s0.wf(),
        s1.is_compaction_of(s0),
        s2.is_compaction_of(s1),
    ensures
        s2@ == s1@,
        s1@ == s0@,
        s2.log_view() == s1.log_view(),
        reopened(s1.log_view()) == Some(s0@),
        reopened(s2.log_view()) == Some(s0@),
{
    assert(s1.live_records() =~= s0.live_records());
    s1.lemma_reopen();
    s2.lemma_reopen();
}

impl KvsEngine for KvStore {
    open spec fn inv(&self) -> bool {
        self.wf()
    }

    open spec fn model(&self) -> Map<Seq<char>, Seq<char>> {
        self@
    }

    fn set(&mut self, key: String, value: String) -> (r: Result<()>) {
        KvStore::set(self, key, value)
    }

    fn get(&self, key: String) -> (r: Result<Option<String>>) {
        KvStore::get(self, key)
    }

    fn remove(&mut self, key: String) -> (r: Result<()>) {
        KvStore::remove(self, key)
    }
}

} // verus!
