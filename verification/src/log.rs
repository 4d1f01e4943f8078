//! The segmented log: an append-only ordered store whose keys are assigned
//! by a process-local monotonic sequence allocator and encoded so that byte
//! order equals numeric order.

use crate::engine::{
    batch_lookup, lemma_tail_page_one, page_has_key, pairs_view, sorted_asc, Engine,
};
use crate::cursor::{CoreSegmentedLogIterator, Direction};
use crate::error::LogError;
use crate::keys::{decode_key, decoded, encode_key, key_of, lemma_key_len, lemma_key_order,
    lemma_key_roundtrip};
use crate::order::{
    lemma_lex_asymm, lemma_lex_empty_le, lemma_lex_irrefl, lemma_lex_lt_le_trans, lex_le, lex_lt,
};
use crate::tuning::{
    compression_choice, log_primary_tuning, log_reader_tuning, spec_log_primary_tuning,
    spec_log_reader_tuning, Mode, Tuning,
};
use vstd::prelude::*;

verus! {

/// The sequence counter `s` is what an open-time scan of `e` seeds: one
/// greater than the numerically greatest existing key, or 1 when empty.
pub open spec fn seeded(e: Engine, s: i64) -> bool {
    if e.contents().len() == 0 {
        s == 1
    } else {
        e.contents().last().0.len() == 8 && s == decoded(e.contents().last().0) + 1
    }
}

/// The open-time scan cannot seed the counter: the store is non-empty and
/// its greatest key is not a usable 8-byte sequence number.
pub open spec fn seed_fails(e: Engine) -> bool {
    e.contents().len() > 0 && (e.contents().last().0.len() != 8 || decoded(
        e.contents().last().0,
    ) == i64::MAX)
}

/// The byte strings a vector of messages holds, as mathematical values.
pub open spec fn msgs_view(s: Seq<Vec<u8>>) -> Seq<Seq<u8>> {
    Seq::new(s.len(), |i: int| s[i]@)
}

/// The key-value pairs a batched append starting at `start` writes: the
/// i-th message under the key encoding `start + i`.
pub open spec fn batch_entries(start: int, msgs: Seq<Seq<u8>>) -> Seq<(Seq<u8>, Seq<u8>)> {
    Seq::new(msgs.len(), |i: int| (key_of((start + i) as i64), msgs[i]))
}

/// How many records `read_last` was asked for; unset means one.
pub open spec fn spec_read_count(c: Option<u32>) -> u32 {
    match c {
        Some(v) => v,
        None => 1,
    }
}

/// The up-to-`limit` newest entries of the engine in ascending key order:
/// every pair present, strictly ascending, complete from its first key up.
pub open spec fn tail_asc(e: Engine, limit: nat, r: Seq<(Seq<u8>, Seq<u8>)>) -> bool {
    &&& r.len() <= limit
    &&& forall|i: int| 0 <= i < r.len() ==> e.has_pair((#[trigger] r[i]).0, r[i].1)
    &&& sorted_asc(r)
    &&& (r.len() < limit ==> forall|k: Seq<u8>| #[trigger] e.has_key(k) ==> page_has_key(r, k))
    &&& (r.len() > 0 ==> forall|k: Seq<u8>|
        #[trigger] e.has_key(k) && lex_le(r[0].0, k) ==> page_has_key(r, k))
}

/// Scan the engine once for its greatest key and derive the next sequence
/// number from it.
fn seed_sequence(e: &Engine) -> (r: Result<i64, LogError>)
    requires
        e.wf(),
    ensures
        match r {
            Ok(s) => !seed_fails(*e) && seeded(*e, s),
            Err(er) => seed_fails(*e) && er == LogError::Decode,
        },
{
    let top = e.last_entries(1);
    proof {
        lemma_tail_page_one(*e, pairs_view(top@));
    }
    if top.len() == 0 {
        return Ok(1);
    }
    match decode_key(top[0].0.as_slice()) {
        None => Err(LogError::Decode),
        Some(v) => {
            if v == i64::MAX {
                Err(LogError::Decode)
            } else {
                Ok(v + 1)
            }
        },
    }
}

/// The append-only segmented log over one engine handle.
pub struct CoreSegmentedLog {
    engine: Option<Engine>,
    sequence: i64,
    mode: Mode,
    tuning: Tuning,
}

impl CoreSegmentedLog {
    /// Whether the handle is still open.
    pub closed spec fn is_open(self) -> bool {
        self.engine is Some
    }

    /// The engine the log owns (meaningful while open).
    pub closed spec fn store(self) -> Engine {
        self.engine->0
    }

    /// The next sequence number the allocator will hand out.
    pub closed spec fn next_seq(self) -> i64 {
        self.sequence
    }

    /// The mode the handle was opened in.
    pub closed spec fn open_mode(self) -> Mode {
        self.mode
    }

    /// The tuning profile selected at open time.
    pub closed spec fn tuning_of(self) -> Tuning {
        self.tuning
    }

    /// Well-formedness: an open log holds a well-formed engine.
    pub open spec fn wf(self) -> bool {
        self.is_open() ==> self.store().wf()
    }

    /// Open a primary log over the engine: creates-if-missing, writable,
    /// tuned for a single steady append stream. Seeds the allocator from
    /// the greatest existing key.
    pub fn new(engine: Engine, enable_compression: Option<bool>) -> (r: Result<
        CoreSegmentedLog,
        LogError,
    >)
        requires
            engine.wf(),
        ensures
            match r {
                Ok(log) => {
                    &&& !seed_fails(engine)
                    &&& log.wf()
                    &&& log.is_open()
                    &&& log.open_mode() == Mode::Primary
                    &&& log.store() == engine
                    &&& seeded(engine, log.next_seq())
                    &&& log.tuning_of() == spec_log_primary_tuning(
                        compression_choice(enable_compression),
                    )
                },
                Err(e) => seed_fails(engine) && e == LogError::Decode,
            },
    {
        let tuning = log_primary_tuning(enable_compression);
        match seed_sequence(&engine) {
            Err(e) => Err(e),
            Ok(s) => Ok(
                CoreSegmentedLog { engine: Some(engine), sequence: s, mode: Mode::Primary, tuning },
            ),
        }
    }

    /// Open the log read-only: same seeding, no write capability, tuned for
    /// a bounded resident set.
    pub fn open_read_only(engine: Engine, enable_compression: Option<bool>) -> (r: Result<
        CoreSegmentedLog,
        LogError,
    >)
        requires
            engine.wf(),
        ensures
            match r {
                Ok(log) => {
                    &&& !seed_fails(engine)
                    &&& log.wf()
                    &&& log.is_open()
                    &&& log.open_mode() == Mode::ReadOnly
                    &&& log.store() == engine
                    &&& seeded(engine, log.next_seq())
                    &&& log.tuning_of() == spec_log_reader_tuning(
                        compression_choice(enable_compression),
                    )
                },
                Err(e) => seed_fails(engine) && e == LogError::Decode,
            },
    {
        let tuning = log_reader_tuning(enable_compression);
        match seed_sequence(&engine) {
            Err(e) => Err(e),
            Ok(s) => Ok(
                CoreSegmentedLog {
                    engine: Some(engine),
                    sequence: s,
                    mode: Mode::ReadOnly,
                    tuning,
                },
            ),
        }
    }

    /// Open the log as a secondary replica trailing a primary's durable
    /// state; reads work, writes fail, and `try_catch_up_with_primary`
    /// re-syncs on demand.
    pub fn open_as_secondary(engine: Engine, enable_compression: Option<bool>) -> (r: Result<
        CoreSegmentedLog,
        LogError,
    >)
        requires
            engine.wf(),
        ensures
            match r {
                Ok(log) => {
                    &&& !seed_fails(engine)
                    &&& log.wf()
                    &&& log.is_open()
                    &&& log.open_mode() == Mode::Secondary
                    &&& log.store() == engine
                    &&& seeded(engine, log.next_seq())
                    &&& log.tuning_of() == spec_log_reader_tuning(
                        compression_choice(enable_compression),
                    )
                },
                Err(e) => seed_fails(engine) && e == LogError::Decode,
            },
    {
        let tuning = log_reader_tuning(enable_compression);
        match seed_sequence(&engine) {
            Err(e) => Err(e),
            Ok(s) => Ok(
                CoreSegmentedLog {
                    engine: Some(engine),
                    sequence: s,
                    mode: Mode::Secondary,
                    tuning,
                },
            ),
        }
    }

    /// Re-sync a secondary replica's view with its primary. Succeeds
    /// exactly on an open secondary handle.
    pub fn try_catch_up_with_primary(&self) -> (r: Result<(), LogError>)
        ensures
            match r {
                Ok(()) => self.is_open() && self.open_mode() == Mode::Secondary,
                Err(e) => {
                    ||| (!self.is_open() && e == LogError::Closed)
                    ||| (self.is_open() && self.open_mode() != Mode::Secondary && (
                    e matches LogError::CatchUp(_)))
                },
            },
    {
        if self.engine.is_none() {
            return Err(LogError::Closed);
        }
        if self.mode == Mode::Secondary {
            Ok(())
        } else {
            Err(LogError::CatchUp("handle does not trail a primary".to_string()))
        }
    }

    /// Flush and release the handle. Safe to call again: a second call is a
    /// no-op on an already-closed log.
    pub fn close(&mut self) -> (r: Result<(), LogError>)
        ensures
            r is Ok,
            !final(self).is_open(),
            final(self).next_seq() == old(self).next_seq(),
            final(self).open_mode() == old(self).open_mode(),
    {
        self.engine = None;
        Ok(())
    }

    /// Reserve one sequence number, write `(encode(seq), message)`, and
    /// return the encoded key. The reservation happens first, so the
    /// counter advances even when the write itself is refused.
    pub fn append(&mut self, message: &[u8]) -> (r: Result<Vec<u8>, LogError>)
        requires
            old(self).wf(),
        ensures
            final(self).wf(),
            final(self).is_open() == old(self).is_open(),
            final(self).open_mode() == old(self).open_mode(),
            !old(self).is_open() ==> (r matches Err(e) && e == LogError::Closed) && *final(self)
                == *old(self),
            old(self).is_open() && old(self).next_seq() == i64::MAX ==> (r matches Err(e) && (
            e matches LogError::Write(_))) && *final(self) == *old(self),
            old(self).is_open() && old(self).next_seq() < i64::MAX ==> {
                &&& final(self).next_seq() == old(self).next_seq() + 1
                &&& (r is Ok <==> old(self).open_mode() == Mode::Primary)
                &&& (r matches Ok(k) ==> k@ == key_of(old(self).next_seq()) && (forall|
                    k2: Seq<u8>,
                    v2: Seq<u8>,
                |
                    #![trigger final(self).store().has_pair(k2, v2)]
                    #![trigger old(self).store().has_pair(k2, v2)]
                    final(self).store().has_pair(k2, v2) <==> if k2 == key_of(
                        old(self).next_seq(),
                    ) {
                        v2 == message@
                    } else {
                        old(self).store().has_pair(k2, v2)
                    }) && (forall|k2: Seq<u8>|
                    #![trigger final(self).store().has_key(k2)]
                    #![trigger old(self).store().has_key(k2)]
                    final(self).store().has_key(k2) <==> (k2 == key_of(old(self).next_seq())
                        || old(self).store().has_key(k2))))
                &&& (r is Err ==> final(self).store() == old(self).store() && (r matches Err(e)
                    && (e matches LogError::Write(_))))
            },
    {
        if self.engine.is_none() {
            return Err(LogError::Closed);
        }
        let s = self.sequence;
        if s == i64::MAX {
            return Err(LogError::Write("sequence space exhausted".to_string()));
        }
        self.sequence = s + 1;
        if self.mode != Mode::Primary {
            return Err(LogError::Write("store is not writable in this mode".to_string()));
        }
        let key = encode_key(s);
        match &mut self.engine {
            None => {
                // the handle was checked open above, so this arm is
                // provably unreachable
                proof {
                    assert(false);
                }
                Err(LogError::Closed)
            },
            Some(e) => {
                e.put(key.as_slice(), message);
                Ok(key)
            },
        }
    }

    /// Reserve a contiguous block of sequence numbers, write every record
    /// as one atomic batch, and return the encoded keys in input order.
    pub fn append_batch(&mut self, messages: &Vec<Vec<u8>>) -> (r: Result<Vec<Vec<u8>>, LogError>)
        requires
            old(self).wf(),
            messages@.len() <= i64::MAX,
        ensures
            final(self).wf(),
            final(self).is_open() == old(self).is_open(),
            final(self).open_mode() == old(self).open_mode(),
            !old(self).is_open() ==> (r matches Err(e) && e == LogError::Closed) && *final(self)
                == *old(self),
            old(self).is_open() && old(self).next_seq() + messages@.len() > i64::MAX ==> (
            r matches Err(e) && (e matches LogError::Write(_))) && *final(self) == *old(self),
            old(self).is_open() && old(self).next_seq() + messages@.len() <= i64::MAX ==> {
                &&& final(self).next_seq() == old(self).next_seq() + messages@.len()
                &&& (r is Ok <==> old(self).open_mode() == Mode::Primary)
                &&& (r matches Ok(keys) ==> keys@.len() == messages@.len() && (forall|i: int|
                    0 <= i < keys@.len() ==> (#[trigger] keys@[i])@ == key_of(
                        (old(self).next_seq() + i) as i64,
                    )) && (forall|k2: Seq<u8>, v2: Seq<u8>|
                    #![trigger final(self).store().has_pair(k2, v2)]
                    #![trigger old(self).store().has_pair(k2, v2)]
                    final(self).store().has_pair(k2, v2) <==> match batch_lookup(
                        batch_entries(old(self).next_seq() as int, msgs_view(messages@)),
                        k2,
                    ) {
                        Some(bv) => v2 == bv,
                        None => old(self).store().has_pair(k2, v2),
                    }) && (forall|k2: Seq<u8>|
                    #![trigger final(self).store().has_key(k2)]
                    #![trigger old(self).store().has_key(k2)]
                    final(self).store().has_key(k2) <==> (batch_lookup(
                        batch_entries(old(self).next_seq() as int, msgs_view(messages@)),
                        k2,
                    ) is Some || old(self).store().has_key(k2))))
                &&& (r is Err ==> final(self).store() == old(self).store() && (r matches Err(e)
                    && (e matches LogError::Write(_))))
            },
    {
        if self.engine.is_none() {
            return Err(LogError::Closed);
        }
        let s = self.sequence;
        let n = messages.len();
        if s > i64::MAX - (n as i64) {
            return Err(LogError::Write("sequence space exhausted".to_string()));
        }
        self.sequence = s + (n as i64);
        if self.mode != Mode::Primary {
            return Err(LogError::Write("store is not writable in this mode".to_string()));
        }
        let ghost target = batch_entries(s as int, msgs_view(messages@));
        let mut entries: Vec<(Vec<u8>, Vec<u8>)> = Vec::new();
        let mut keys: Vec<Vec<u8>> = Vec::new();
        let mut i: usize = 0;
        while i < n
            invariant
                n == messages@.len(),
                n <= i64::MAX,
                s + n <= i64::MAX,
                target == batch_entries(s as int, msgs_view(messages@)),
                i <= n,
                keys@.len() == i,
                entries@.len() == i,
                forall|a: int| 0 <= a < i ==> (#[trigger] keys@[a])@ == key_of((s + a) as i64),
                forall|a: int|
                    0 <= a < i ==> #[trigger] pairs_view(entries@)[a] == target[a],
            decreases n - i,
        {
            let key = encode_key(s + (i as i64));
            let key_copy = vstd::slice::slice_to_vec(key.as_slice());
            let msg_copy = vstd::slice::slice_to_vec(messages[i].as_slice());
            let ghost e0 = pairs_view(entries@);
            entries.push((key_copy, msg_copy));
            keys.push(key);
            proof {
                let e1 = pairs_view(entries@);
                assert(forall|a: int| 0 <= a < e0.len() ==> e1[a] == e0[a]);
                assert(e1[e0.len() as int] == target[i as int]);
            }
            i = i + 1;
        }
        proof {
            assert(pairs_view(entries@) =~= target);
        }
        match &mut self.engine {
            None => {
                // the handle was checked open above, so this arm is
                // provably unreachable
                proof {
                    assert(false);
                }
                Err(LogError::Closed)
            },
            Some(e) => {
                e.write_batch(&entries);
                Ok(keys)
            },
        }
    }

    /// Overwrite a specific position directly; the allocator is neither
    /// consulted nor advanced.
    pub fn put(&mut self, key: &[u8], value: &[u8]) -> (r: Result<(), LogError>)
        requires
            old(self).wf(),
        ensures
            final(self).wf(),
            final(self).is_open() == old(self).is_open(),
            final(self).open_mode() == old(self).open_mode(),
            final(self).next_seq() == old(self).next_seq(),
            !old(self).is_open() ==> (r matches Err(e) && e == LogError::Closed) && *final(self)
                == *old(self),
            old(self).is_open() ==> {
                &&& (r is Ok <==> old(self).open_mode() == Mode::Primary)
                &&& (r is Ok ==> (forall|k2: Seq<u8>, v2: Seq<u8>|
                    #![trigger final(self).store().has_pair(k2, v2)]
                    #![trigger old(self).store().has_pair(k2, v2)]
                    final(self).store().has_pair(k2, v2) <==> if k2 == key@ {
                        v2 == value@
                    } else {
                        old(self).store().has_pair(k2, v2)
                    }) && (forall|k2: Seq<u8>|
                    #![trigger final(self).store().has_key(k2)]
                    #![trigger old(self).store().has_key(k2)]
                    final(self).store().has_key(k2) <==> (k2 == key@ || old(self).store().has_key(
                        k2,
                    ))))
                &&& (r is Err ==> final(self).store() == old(self).store() && (r matches Err(e)
                    && (e matches LogError::Write(_))))
            },
    {
        if self.engine.is_none() {
            return Err(LogError::Closed);
        }
        if self.mode != Mode::Primary {
            return Err(LogError::Write("store is not writable in this mode".to_string()));
        }
        match &mut self.engine {
            None => {
                // the handle was checked open above, so this arm is
                // provably unreachable
                proof {
                    assert(false);
                }
                Err(LogError::Closed)
            },
            Some(e) => {
                e.put(key, value);
                Ok(())
            },
        }
    }

    /// Atomically delete every record whose key is strictly below
    /// `before_key`; records at or above it are untouched.
    pub fn truncate_before(&mut self, before_key: &[u8]) -> (r: Result<(), LogError>)
        requires
            old(self).wf(),
        ensures
            final(self).wf(),
            final(self).is_open() == old(self).is_open(),
            final(self).open_mode() == old(self).open_mode(),
            final(self).next_seq() == old(self).next_seq(),
            !old(self).is_open() ==> (r matches Err(e) && e == LogError::Closed) && *final(self)
                == *old(self),
            old(self).is_open() ==> {
                &&& (r is Ok <==> old(self).open_mode() == Mode::Primary)
                &&& (r is Ok ==> (forall|k2: Seq<u8>, v2: Seq<u8>|
                    #![trigger final(self).store().has_pair(k2, v2)]
                    #![trigger old(self).store().has_pair(k2, v2)]
                    final(self).store().has_pair(k2, v2) <==> (old(self).store().has_pair(k2, v2)
                        && !lex_lt(k2, before_key@))) && (forall|k2: Seq<u8>|
                    #![trigger final(self).store().has_key(k2)]
                    #![trigger old(self).store().has_key(k2)]
                    final(self).store().has_key(k2) <==> (old(self).store().has_key(k2)
                        && !lex_lt(k2, before_key@))))
                &&& (r is Err ==> final(self).store() == old(self).store() && (r matches Err(e)
                    && (e matches LogError::Write(_))))
            },
    {
        if self.engine.is_none() {
            return Err(LogError::Closed);
        }
        if self.mode != Mode::Primary {
            return Err(LogError::Write("store is not writable in this mode".to_string()));
        }
        let empty: Vec<u8> = Vec::new();
        match &mut self.engine {
            None => {
                // the handle was checked open above, so this arm is
                // provably unreachable
                proof {
                    assert(false);
                }
                Err(LogError::Closed)
            },
            Some(e) => {
                e.delete_range(empty.as_slice(), before_key);
                proof {
                    assert forall|k2: Seq<u8>| lex_le(empty@, k2) by {
                        lemma_lex_empty_le(k2);
                        assert(empty@ =~= Seq::<u8>::empty());
                    }
                }
                Ok(())
            },
        }
    }

    /// Return up to `count` of the most recent records, oldest of them
    /// first (ascending key order); fewer when the store holds fewer, and
    /// none when it is empty. `count` defaults to 1.
    pub fn read_last(&self, count: Option<u32>) -> (r: Result<Vec<(Vec<u8>, Vec<u8>)>, LogError>)
        requires
            self.wf(),
        ensures
            match r {
                Ok(items) => self.is_open() && tail_asc(
                    self.store(),
                    spec_read_count(count) as nat,
                    pairs_view(items@),
                ),
                Err(e) => !self.is_open() && e == LogError::Closed,
            },
    {
        match &self.engine {
            None => Err(LogError::Closed),
            Some(e) => {
                let limit_u32 = match count {
                    Some(c) => c,
                    None => 1,
                };
                let limit = limit_u32 as usize;
                let desc = e.last_entries(limit);
                let ghost d = pairs_view(desc@);
                let mut out: Vec<(Vec<u8>, Vec<u8>)> = Vec::new();
                let mut i: usize = desc.len();
                while i > 0
                    invariant
                        i <= desc@.len(),
                        d == pairs_view(desc@),
                        out@.len() == desc@.len() - i,
                        forall|a: int|
                            0 <= a < out@.len() ==> #[trigger] pairs_view(out@)[a] == d[d.len() - 1
                                - a],
                    decreases i,
                {
                    i = i - 1;
                    let entry = (
                        vstd::slice::slice_to_vec(desc[i].0.as_slice()),
                        vstd::slice::slice_to_vec(desc[i].1.as_slice()),
                    );
                    let ghost o0 = pairs_view(out@);
                    out.push(entry);
                    proof {
                        let o1 = pairs_view(out@);
                        assert(forall|a: int| 0 <= a < o0.len() ==> o1[a] == o0[a]);
                        assert(o1[o0.len() as int] == d[i as int]);
                    }
                }
                proof {
                    let rr = pairs_view(out@);
                    assert(rr.len() == d.len());
                    assert forall|a: int| 0 <= a < rr.len() implies e.has_pair(
                        (#[trigger] rr[a]).0,
                        rr[a].1,
                    ) by {
                        assert(rr[a] == d[d.len() - 1 - a]);
                    }
                    assert forall|p: int, q: int|
                        0 <= p < q < rr.len() implies lex_lt(rr[p].0, rr[q].0) by {
                        assert(rr[p] == d[d.len() - 1 - p]);
                        assert(rr[q] == d[d.len() - 1 - q]);
                    }
                    if rr.len() < limit {
                        assert forall|k2: Seq<u8>| #[trigger] e.has_key(k2) implies page_has_key(
                            rr,
                            k2,
                        ) by {
                            assert(page_has_key(d, k2));
                            let a = choose|a: int|
                                0 <= a < d.len() && (#[trigger] d[a]).0 == k2;
                            assert(rr[d.len() - 1 - a].0 == k2);
                        }
                    }
                    if rr.len() > 0 {
                        assert(rr[0] == d.last());
                        assert forall|k2: Seq<u8>| #[trigger] e.has_key(k2) && lex_le(rr[0].0, k2)
                            implies page_has_key(rr, k2) by {
                            assert(page_has_key(d, k2));
                            let a = choose|a: int|
                                0 <= a < d.len() && (#[trigger] d[a]).0 == k2;
                            assert(rr[d.len() - 1 - a].0 == k2);
                        }
                    }
                }
                Ok(out)
            },
        }
    }

    /// Produce a forward cursor over the store's current contents,
    /// starting at `start_key` (inclusive) or at the very beginning.
    pub fn iterate_from(
        &self,
        start_key: Option<&[u8]>,
        batch_size: Option<usize>,
    ) -> (r: Result<CoreSegmentedLogIterator, LogError>)
        requires
            self.wf(),
        ensures
            match r {
                Ok(c) => {
                    &&& self.is_open()
                    &&& c.wf()
                    &&& !c.is_closed()
                    &&& c.dir() == Direction::Forward
                    &&& c.emitted_seq() == Seq::<(Seq<u8>, Seq<u8>)>::empty()
                    &&& c.snapshot_engine().contents() == self.store().contents()
                    &&& (forall|k: Seq<u8>, v: Seq<u8>|
                        #[trigger] c.snapshot_engine().has_pair(k, v)
                            == self.store().has_pair(k, v))
                    &&& (forall|k: Seq<u8>|
                        #[trigger] c.snapshot_engine().has_key(k) == self.store().has_key(k))
                    &&& c.origin_key() == (match start_key {
                        Some(k) => k@,
                        None => Seq::<u8>::empty(),
                    })
                },
                Err(e) => !self.is_open() && e == LogError::Closed,
            },
    {
        match &self.engine {
            None => Err(LogError::Closed),
            Some(e) => {
                let snap = e.snapshot();
                let start: Vec<u8> = match start_key {
                    Some(k) => vstd::slice::slice_to_vec(k),
                    None => Vec::new(),
                };
                proof {
                    assert(start_key is None ==> start@ =~= Seq::<u8>::empty());
                }
                Ok(CoreSegmentedLogIterator::new(snap, start, batch_size, Direction::Forward))
            },
        }
    }

    /// Produce a reverse cursor: from `start_key` (inclusive) walking
    /// backward, or, with no start, seeded at the current greatest key so
    /// it walks the whole store newest-first.
    pub fn iterate_from_end(
        &self,
        start_key: Option<&[u8]>,
        batch_size: Option<usize>,
    ) -> (r: Result<CoreSegmentedLogIterator, LogError>)
        requires
            self.wf(),
        ensures
            match r {
                Ok(c) => {
                    &&& self.is_open()
                    &&& c.wf()
                    &&& !c.is_closed()
                    &&& c.dir() == Direction::Reverse
                    &&& c.emitted_seq() == Seq::<(Seq<u8>, Seq<u8>)>::empty()
                    &&& c.snapshot_engine().contents() == self.store().contents()
                    &&& (forall|k: Seq<u8>, v: Seq<u8>|
                        #[trigger] c.snapshot_engine().has_pair(k, v)
                            == self.store().has_pair(k, v))
                    &&& (forall|k: Seq<u8>|
                        #[trigger] c.snapshot_engine().has_key(k) == self.store().has_key(k))
                    &&& (start_key matches Some(k) ==> c.origin_key() == k@)
                    &&& (start_key is None && self.store().contents().len() == 0
                        ==> c.origin_key() == Seq::<u8>::empty())
                    &&& (start_key is None && self.store().contents().len() > 0
                        ==> c.origin_key() == self.store().contents().last().0)
                },
                Err(e) => !self.is_open() && e == LogError::Closed,
            },
    {
        match &self.engine {
            None => Err(LogError::Closed),
            Some(e) => {
                let start: Vec<u8> = match start_key {
                    Some(k) => vstd::slice::slice_to_vec(k),
                    None => {
                        let top = e.last_entries(1);
                        proof {
                            lemma_tail_page_one(*e, pairs_view(top@));
                        }
                        if top.is_empty() {
                            Vec::new()
                        } else {
                            vstd::slice::slice_to_vec(top[0].0.as_slice())
                        }
                    },
                };
                proof {
                    if start_key is None && self.store().contents().len() == 0 {
                        assert(start@ =~= Seq::<u8>::empty());
                    }
                }
                let snap = e.snapshot();
                Ok(CoreSegmentedLogIterator::new(snap, start, batch_size, Direction::Reverse))
            },
        }
    }

    /// The greatest key present, or none when the store is empty.
    pub fn get_last_key(&self) -> (r: Result<Option<Vec<u8>>, LogError>)
        requires
            self.wf(),
        ensures
            match r {
                Ok(opt) => self.is_open() && match opt {
                    Some(k) => self.store().has_key(k@) && (forall|k2: Seq<u8>|
                        #[trigger] self.store().has_key(k2) ==> lex_le(k2, k@)),
                    None => self.store().contents().len() == 0,
                },
                Err(e) => !self.is_open() && e == LogError::Closed,
            },
    {
        match &self.engine {
            None => Err(LogError::Closed),
            Some(e) => {
                let top = e.last_entries(1);
                proof {
                    lemma_tail_page_one(*e, pairs_view(top@));
                }
                if top.is_empty() {
                    Ok(None)
                } else {
                    Ok(Some(vstd::slice::slice_to_vec(top[0].0.as_slice())))
                }
            },
        }
    }
}

/// The engine holds exactly the records appended as sequence numbers
/// 1 through `n`, whatever their values.
pub open spec fn holds_sequence_keys(e: Engine, n: int) -> bool {
    forall|k: Seq<u8>|
        #[trigger] e.has_key(k) <==> exists|i: int| 1 <= i <= n && k == #[trigger] key_of(i as i64)
}

/// Law: keys handed out by successive appends are strictly increasing in
/// byte order, and each decodes back to the sequence number it was
/// reserved as — byte order equals reservation order.
pub proof fn lemma_append_keys_increase(s1: i64, s2: i64)
    requires
        0 <= s1 < s2,
    ensures
        lex_lt(key_of(s1), key_of(s2)),
        decoded(key_of(s1)) == s1,
        decoded(key_of(s2)) == s2,
{
    lemma_key_order(s1, s2);
    lemma_key_roundtrip(s1);
    lemma_key_roundtrip(s2);
}

/// Law: after appending records 1 through `n`, the greatest key present
/// is the encoding of `n` — `get_last_key` returns exactly it.
pub proof fn lemma_last_key_after_appends(e: Engine, n: i64)
    requires
        1 <= n,
        holds_sequence_keys(e, n as int),
    ensures
        e.has_key(key_of(n)),
        forall|k: Seq<u8>| #[trigger] e.has_key(k) ==> lex_le(k, key_of(n)),
{
    assert(key_of((n as int) as i64) == key_of(n));
    assert(e.has_key(key_of(n)));
    assert forall|k: Seq<u8>| #[trigger] e.has_key(k) implies lex_le(k, key_of(n)) by {
        let i = choose|i: int| 1 <= i <= n && k == #[trigger] key_of(i as i64);
        if i < n {
            lemma_key_order(i as i64, n);
        }
    }
}

/// Law: truncation below a position at or before the tail does not touch
/// the tail — the greatest key survives `truncate_before`.
pub proof fn lemma_tail_survives_truncation(m: i64, n: i64)
    requires
        0 <= m <= n,
    ensures
        !lex_lt(key_of(n), key_of(m)),
{
    if m < n {
        lemma_key_order(m, n);
        lemma_lex_asymm(key_of(m), key_of(n));
    } else {
        lemma_lex_irrefl(key_of(n));
    }
}

/// Law: reopening a store that holds records 1 through `n` seeds the
/// allocator at `n + 1`, so the next append produces a key that was never
/// handed out before.
pub proof fn lemma_reopen_continues_sequence(e: Engine, n: i64)
    requires
        e.wf(),
        1 <= n < i64::MAX,
        holds_sequence_keys(e, n as int),
    ensures
        !seed_fails(e),
        seeded(e, (n + 1) as i64),
        !e.has_key(key_of((n + 1) as i64)),
{
    let c = e.contents();
    lemma_last_key_after_appends(e, n);
    let j0 = choose|j0: int| 0 <= j0 < c.len() && (#[trigger] c[j0]).0 == key_of(n);
    assert(c.len() > 0);
    // The last entry's key is the greatest, and the greatest is key_of(n).
    assert(e.has_key(c.last().0)) by {
        assert((c[c.len() - 1]).0 == c.last().0);
    }
    assert(lex_le(c.last().0, key_of(n)));
    if j0 < c.len() - 1 {
        assert(lex_lt(c[j0].0, c.last().0));
        lemma_lex_lt_le_trans(c[j0].0, c.last().0, key_of(n));
        lemma_lex_irrefl(key_of(n));
        assert(false);
    }
    assert(c.last().0 == key_of(n));
    lemma_key_len(n);
    lemma_key_roundtrip(n);
    if e.has_key(key_of((n + 1) as i64)) {
        let i = choose|i: int| 1 <= i <= n && key_of((n + 1) as i64) == #[trigger] key_of(i as i64);
        lemma_key_roundtrip((n + 1) as i64);
        lemma_key_roundtrip(i as i64);
        assert(false);
    }
}

} // verus!
