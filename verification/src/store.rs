//! The generic key-value store: the same engine lifecycle and cursor
//! machinery as the segmented log, but every key is caller-supplied and no
//! sequence number is allocated.

use crate::cursor::{CoreSegmentedLogIterator, Direction};
use crate::engine::{lemma_tail_page_one, pairs_view, Engine};
use crate::error::LogError;
use crate::tuning::{
    compression_choice, spec_store_primary_tuning, spec_store_secondary_tuning,
    store_primary_tuning, store_secondary_tuning, Mode, Tuning,
};
use vstd::prelude::*;

verus! {

/// An ordered key-value store over one engine handle, keyed by arbitrary
/// caller-supplied byte strings.
pub struct CoreRocksDb {
    engine: Option<Engine>,
    mode: Mode,
    tuning: Tuning,
}

impl CoreRocksDb {
    /// Whether the handle is still open.
    pub closed spec fn is_open(self) -> bool {
        self.engine is Some
    }

    /// The engine the store owns (meaningful while open).
    pub closed spec fn store(self) -> Engine {
        self.engine->0
    }

    /// The mode the handle was opened in.
    pub closed spec fn open_mode(self) -> Mode {
        self.mode
    }

    /// The tuning profile selected at open time.
    pub closed spec fn tuning_of(self) -> Tuning {
        self.tuning
    }

    /// Well-formedness: an open store holds a well-formed engine.
    pub open spec fn wf(self) -> bool {
        self.is_open() ==> self.store().wf()
    }

    /// Open a primary generic store over the engine: creates-if-missing,
    /// writable, tuned for bulk key-value workloads.
    pub fn new(engine: Engine, enable_compression: Option<bool>) -> (r: Result<
        CoreRocksDb,
        LogError,
    >)
        requires
            engine.wf(),
        ensures
            match r {
                Ok(st) => {
                    &&& st.wf()
                    &&& st.is_open()
                    &&& st.open_mode() == Mode::Primary
                    &&& st.store() == engine
                    &&& st.tuning_of() == spec_store_primary_tuning(
                        compression_choice(enable_compression),
                    )
                },
                Err(_) => false,
            },
    {
        let tuning = store_primary_tuning(enable_compression);
        Ok(CoreRocksDb { engine: Some(engine), mode: Mode::Primary, tuning })
    }

    /// Open the store as a secondary replica trailing a primary's durable
    /// state; reads work, writes fail.
    pub fn open_as_secondary(engine: Engine, enable_compression: Option<bool>) -> (r: Result<
        CoreRocksDb,
        LogError,
    >)
        requires
            engine.wf(),
        ensures
            match r {
                Ok(st) => {
                    &&& st.wf()
                    &&& st.is_open()
                    &&& st.open_mode() == Mode::Secondary
                    &&& st.store() == engine
                    &&& st.tuning_of() == spec_store_secondary_tuning(
                        compression_choice(enable_compression),
                    )
                },
                Err(_) => false,
            },
    {
        let tuning = store_secondary_tuning(enable_compression);
        Ok(CoreRocksDb { engine: Some(engine), mode: Mode::Secondary, tuning })
    }

    /// Re-sync a secondary replica's view with its primary. Succeeds
    /// exactly on an open secondary handle.
    pub fn try_catch_up_with_primary(&self) -> (r: Result<(), LogError>)
        ensures
            match r {
                Ok(()) => self.is_open() && self.open_mode() == Mode::Secondary,
                Err(e) => {
                    ||| (!self.is_open() && e == LogError::Closed)
                    ||| (self.is_open() && self.open_mode() != Mode::Secondary && (
                    e matches LogError::CatchUp(_)))
                },
            },
    {
        if self.engine.is_none() {
            return Err(LogError::Closed);
        }
        if self.mode == Mode::Secondary {
            Ok(())
        } else {
            Err(LogError::CatchUp("handle does not trail a primary".to_string()))
        }
    }

    /// Flush and release the handle; safe to call again.
    pub fn close(&mut self) -> (r: Result<(), LogError>)
        ensures
            r is Ok,
            !final(self).is_open(),
            final(self).open_mode() == old(self).open_mode(),
    {
        self.engine = None;
        Ok(())
    }

    /// Write one key-value pair under a caller-supplied key, replacing any
    /// existing entry.
    pub fn put(&mut self, key: &[u8], value: &[u8]) -> (r: Result<(), LogError>)
        requires
            old(self).wf(),
        ensures
            final(self).wf(),
            final(self).is_open() == old(self).is_open(),
            final(self).open_mode() == old(self).open_mode(),
            !old(self).is_open() ==> (r matches Err(e) && e == LogError::Closed) && *final(self)
                == *old(self),
            old(self).is_open() ==> {
                &&& (r is Ok <==> old(self).open_mode() == Mode::Primary)
                &&& (r is Ok ==> (forall|k2: Seq<u8>, v2: Seq<u8>|
                    #![trigger final(self).store().has_pair(k2, v2)]
                    #![trigger old(self).store().has_pair(k2, v2)]
                    final(self).store().has_pair(k2, v2) <==> if k2 == key@ {
                        v2 == value@
                    } else {
                        old(self).store().has_pair(k2, v2)
                    }) && (forall|k2: Seq<u8>|
                    #![trigger final(self).store().has_key(k2)]
                    #![trigger old(self).store().has_key(k2)]
                    final(self).store().has_key(k2) <==> (k2 == key@ || old(self).store().has_key(
                        k2,
                    ))))
                &&& (r is Err ==> final(self).store() == old(self).store() && (r matches Err(e)
                    && (e matches LogError::Write(_))))
            },
    {
        if self.engine.is_none() {
            return Err(LogError::Closed);
        }
        if self.mode != Mode::Primary {
            return Err(LogError::Write("store is not writable in this mode".to_string()));
        }
        match &mut self.engine {
            None => {
                // the handle was checked open above, so this arm is
                // provably unreachable
                proof {
                    assert(false);
                }
                Err(LogError::Closed)
            },
            Some(e) => {
                e.put(key, value);
                Ok(())
            },
        }
    }

    /// Produce a forward cursor over the store's current contents,
    /// starting at `start_key` (inclusive) or at the very beginning.
    pub fn iterate_from(
        &self,
        start_key: Option<&[u8]>,
        batch_size: Option<usize>,
    ) -> (r: Result<CoreSegmentedLogIterator, LogError>)
        requires
            self.wf(),
        ensures
            match r {
                Ok(c) => {
                    &&& self.is_open()
                    &&& c.wf()
                    &&& !c.is_closed()
                    &&& c.dir() == Direction::Forward
                    &&& c.emitted_seq() == Seq::<(Seq<u8>, Seq<u8>)>::empty()
                    &&& c.snapshot_engine().contents() == self.store().contents()
                    &&& (forall|k: Seq<u8>, v: Seq<u8>|
                        #[trigger] c.snapshot_engine().has_pair(k, v)
                            == self.store().has_pair(k, v))
                    &&& (forall|k: Seq<u8>|
                        #[trigger] c.snapshot_engine().has_key(k) == self.store().has_key(k))
                    &&& c.origin_key() == (match start_key {
                        Some(k) => k@,
                        None => Seq::<u8>::empty(),
                    })
                },
                Err(e) => !self.is_open() && e == LogError::Closed,
            },
    {
        match &self.engine {
            None => Err(LogError::Closed),
            Some(e) => {
                let snap = e.snapshot();
                let start: Vec<u8> = match start_key {
                    Some(k) => vstd::slice::slice_to_vec(k),
                    None => Vec::new(),
                };
                proof {
                    assert(start_key is None ==> start@ =~= Seq::<u8>::empty());
                }
                Ok(CoreSegmentedLogIterator::new(snap, start, batch_size, Direction::Forward))
            },
        }
    }

    /// Produce a reverse cursor: from `start_key` (inclusive) walking
    /// backward, or, with no start, seeded at the current greatest key.
    pub fn iterate_from_end(
        &self,
        start_key: Option<&[u8]>,
        batch_size: Option<usize>,
    ) -> (r: Result<CoreSegmentedLogIterator, LogError>)
        requires
            self.wf(),
        ensures
            match r {
                Ok(c) => {
                    &&& self.is_open()
                    &&& c.wf()
                    &&& !c.is_closed()
                    &&& c.dir() == Direction::Reverse
                    &&& c.emitted_seq() == Seq::<(Seq<u8>, Seq<u8>)>::empty()
                    &&& c.snapshot_engine().contents() == self.store().contents()
                    &&& (forall|k: Seq<u8>, v: Seq<u8>|
                        #[trigger] c.snapshot_engine().has_pair(k, v)
                            == self.store().has_pair(k, v))
                    &&& (forall|k: Seq<u8>|
                        #[trigger] c.snapshot_engine().has_key(k) == self.store().has_key(k))
                    &&& (start_key matches Some(k) ==> c.origin_key() == k@)
                    &&& (start_key is None && self.store().contents().len() == 0
                        ==> c.origin_key() == Seq::<u8>::empty())
                    &&& (start_key is None && self.store().contents().len() > 0
                        ==> c.origin_key() == self.store().contents().last().0)
                },
                Err(e) => !self.is_open() && e == LogError::Closed,
            },
    {
        match &self.engine {
            None => Err(LogError::Closed),
            Some(e) => {
                let start: Vec<u8> = match start_key {
                    Some(k) => vstd::slice::slice_to_vec(k),
                    None => {
                        let top = e.last_entries(1);
                        proof {
                            lemma_tail_page_one(*e, pairs_view(top@));
                        }
                        if top.is_empty() {
                            Vec::new()
                        } else {
                            vstd::slice::slice_to_vec(top[0].0.as_slice())
                        }
                    },
                };
                proof {
                    if start_key is None && self.store().contents().len() == 0 {
                        assert(start@ =~= Seq::<u8>::empty());
                    }
                }
                let snap = e.snapshot();
                Ok(CoreSegmentedLogIterator::new(snap, start, batch_size, Direction::Reverse))
            },
        }
    }
}

} // verus!
