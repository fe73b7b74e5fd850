//! The log-structured engine kept in step with a log on durable storage.
use crate::codec::command_fits;
use crate::codec::encode_spec;
use crate::codec::Command;
use crate::codec::CommandModel;
use crate::engines::kvs::lemma_reopen_append;
use crate::engines::kvs::dead_after;
use crate::engines::kvs::flatten;
use crate::engines::kvs::parse_log;
use crate::engines::kvs::reopened;
use crate::engines::kvs::COMPACTION_THRESHOLD;
use crate::engines::kvs::KvStore;
use crate::engines::KvsEngine;
use crate::error::KvStoreError;
use crate::error::Result;
use vstd::prelude::*;
use vstd::slice::slice_to_vec;

verus! {

/// Durable storage for the bytes of a log, such as a file. A failure comes
/// back as the text that describes it, and leaves the log as it was.
pub trait LogFile {
    /// The bytes that the log holds. A verified implementation states them;
    /// the default, an empty log, stands for an implementation that Verus
    /// does not see.
    closed spec fn bytes(&self) -> Seq<u8> {
        Seq::empty()
    }

    /// Reads the whole log.
    fn read_all(&self) -> (r: core::result::Result<Vec<u8>, String>)
        ensures
            r matches Ok(b) ==> b@ == self.bytes(),
    ;

    /// Appends `bytes` at the end of the log and makes them durable.
    fn append(&mut self, bytes: &[u8]) -> (r: core::result::Result<(), String>)
        ensures
            r is Ok ==> final(self).bytes() == old(self).bytes() + bytes@,
            r is Err ==> final(self).bytes() == old(self).bytes(),
    ;

    /// Replaces the whole log by `bytes`, in one step.
    fn replace(&mut self, bytes: &[u8]) -> (r: core::result::Result<(), String>)
        ensures
            r is Ok ==> final(self).bytes() == bytes@,
            r is Err ==> final(self).bytes() == old(self).bytes(),
    ;
}

/// A log held in memory.
pub struct VecLog {
    bytes: Vec<u8>,
}

impl VecLog {
    /// An empty log.
    pub fn new() -> (r: VecLog)
        ensures
            r.bytes() == Seq::<u8>::empty(),
    {
        VecLog { bytes: Vec::new() }
    }

    /// The bytes that the log holds.
    pub fn contents(&self) -> (r: &[u8])
        ensures
            r@ == self.bytes(),
    {
        self.bytes.as_slice()
    }
}

impl LogFile for VecLog {
    closed spec fn bytes(&self) -> Seq<u8> {
        self.bytes@
    }

    fn read_all(&self) -> (r: core::result::Result<Vec<u8>, String>) {
        Ok(slice_to_vec(self.bytes.as_slice()))
    }

    fn append(&mut self, bytes: &[u8]) -> (r: core::result::Result<(), String>) {
        let mut more = slice_to_vec(bytes);
        self.bytes.append(&mut more);
        Ok(())
    }

    fn replace(&mut self, bytes: &[u8]) -> (r: core::result::Result<(), String>) {
        self.bytes = slice_to_vec(bytes);
        Ok(())
    }
}

/// A log-structured store whose records reach durable storage before the
/// index points at them: the log file always reopens to the map it holds.
pub struct DurableStore<F: LogFile> {
    store: KvStore,
    file: F,
}

impl<F: LogFile> DurableStore<F> {
    /// The store that serves reads.
    pub closed spec fn store_view(&self) -> KvStore {
        self.store
    }

    /// The log file.
    pub closed spec fn file_view(&self) -> F {
        self.file
    }

    /// Opens a store on the log that `file` holds. A failure to read it is
    /// `IOError`; a record that does not decode is `CorruptionError`.
    pub fn open(file: F) -> (r: Result<DurableStore<F>>)
        ensures
            r matches Ok(s) ==> s.inv() && Some(s.model()) == reopened(file.bytes()),
            r matches Ok(s) ==> ({
                let st = s.store_view();
                let replayed = parse_log(file.bytes())->0;
                ||| dead_after(replayed) <= COMPACTION_THRESHOLD && st.log_view() == file.bytes()
                    && st.dead_bytes() == dead_after(replayed)
                ||| dead_after(replayed) > COMPACTION_THRESHOLD && st.dead_bytes() == 0
                    && st.log_view() == flatten(st.live_records())
            }),
            reopened(file.bytes()) is None ==> r is Err,
            r matches Err(e) ==> e is CorruptionError || e is IOError,
            r matches Err(KvStoreError::CorruptionError) ==> reopened(file.bytes()) is None,
    {
        let log = match file.read_all() {
            Ok(log) => log,
            Err(m) => {
                return Err(KvStoreError::IOError(m));
            },
        };
        match KvStore::open(log) {
            Ok(store) => {
                let mut s = DurableStore { store, file };
                s.compact_if_due();
                Ok(s)
            },
            Err(e) => Err(e),
        }
    }

    /// Gives back the log file.
    pub fn into_file(self) -> (r: F)
        ensures
            r == self.file_view(),
    {
        self.file
    }

    /// Compacts once the dead bytes pass the threshold, and writes the
    /// compacted log in place of the old one. Where that write fails the old
    /// log stays: it holds the same map, and later records still go after it.
    fn compact_if_due(&mut self)
        requires
            old(self).inv(),
        ensures
            final(self).inv(),
            final(self).model() == old(self).model(),
            old(self).store_view().dead_bytes() <= COMPACTION_THRESHOLD ==> (final(self).store_view()
                == old(self).store_view()),
            old(self).store_view().dead_bytes() > COMPACTION_THRESHOLD ==> (final(self).store_view().is_compaction_of(old(self).store_view())),
    {
        if self.store.needs_compaction() {
            self.store.compact();
            proof {
                self.store.lemma_reopen();
            }
            let _ = self.file.replace(self.store.log());
        }
    }

    /// Whether the record fits after the log in memory.
    fn fits(&self, rec: &Vec<u8>) -> (r: bool)
        ensures
            r == (self.store.log_view().len() + rec@.len() <= usize::MAX),
    {
        rec.len() <= usize::MAX - self.store.log().len()
    }
}

impl<F: LogFile> KvsEngine for DurableStore<F> {
    open spec fn inv(&self) -> bool {
        &&& self.store_view().wf()
        &&& reopened(self.file_view().bytes()) == Some(self.store_view()@)
    }

    open spec fn model(&self) -> Map<Seq<char>, Seq<char>> {
        self.store_view()@
    }

    /// Writes the `Put` record to the log file, then sets the key in the
    /// store.
    fn set(&mut self, key: String, value: String) -> (r: Result<()>) {
        let rec = Command::Put { key: key.clone(), value: value.clone() }.encode();
        if !self.fits(&rec) {
            return Err(KvStoreError::StringError("the log is full".to_string()));
        }
        let ghost old_bytes = self.file.bytes();
        match self.file.append(rec.as_slice()) {
            Err(m) => Err(KvStoreError::IOError(m)),
            Ok(()) => {
                proof {
                    lemma_reopen_append(old_bytes, CommandModel::Put { key: key@, value: value@ });
                }
                let r = self.store.set(key, value);
                assert(r is Ok);
                self.compact_if_due();
                Ok(())
            },
        }
    }

    fn get(&self, key: String) -> (r: Result<Option<String>>) {
        self.store.get(key)
    }

    /// Writes the `Remove` record to the log file, then removes the key from
    /// the store. A key without a value writes nothing.
    fn remove(&mut self, key: String) -> (r: Result<()>) {
        if !self.store.contains_key(&key) {
            return Err(KvStoreError::KeyNotFoundError);
        }
        let rec = Command::Remove { key: key.clone() }.encode();
        if !self.fits(&rec) {
            return Err(KvStoreError::StringError("the log is full".to_string()));
        }
        let ghost old_bytes = self.file.bytes();
        match self.file.append(rec.as_slice()) {
            Err(m) => Err(KvStoreError::IOError(m)),
            Ok(()) => {
                proof {
                    lemma_reopen_append(old_bytes, CommandModel::Remove { key: key@ });
                }
                let r = self.store.remove(key);
                assert(r is Ok);
                self.compact_if_due();
                Ok(())
            },
        }
    }
}

} // verus!
