//! The paginated cursor: a resumable, batch-buffered reader over a key
//! range of an engine snapshot, walking forward or backward.
//!
//! A cursor loads one page at a time. A load reads one pair beyond the
//! page limit when present; that extra pair is not handed to the caller
//! but records the key the next load resumes from (inclusively), so no
//! position is ever re-scanned or skipped across loads.

use crate::engine::{forward_page, page_has_key, pairs_view, reverse_page, Engine};
use crate::order::{
    lemma_lex_irrefl, lemma_lex_le_lt_trans, lemma_lex_le_trans, lemma_lex_lt_le_trans,
    lemma_lex_total, lemma_lex_trans, lex_le, lex_lt,
};
use vstd::prelude::*;
use vstd::slice::slice_to_vec;

verus! {

/// Which way the cursor walks the key order.
#[derive(Debug, Clone, Copy, PartialEq, Eq, Structural)]
pub enum Direction {
    /// Ascending keys.
    Forward,
    /// Descending keys.
    Reverse,
}

/// `a` comes strictly earlier than `b` in traversal order.
pub open spec fn key_before(d: Direction, a: Seq<u8>, b: Seq<u8>) -> bool {
    match d {
        Direction::Forward => lex_lt(a, b),
        Direction::Reverse => lex_lt(b, a),
    }
}

/// The key lies in the half-line the cursor covers, which starts
/// (inclusively) at `origin`.
pub open spec fn in_range(d: Direction, origin: Seq<u8>, k: Seq<u8>) -> bool {
    match d {
        Direction::Forward => lex_le(origin, k),
        Direction::Reverse => lex_le(k, origin),
    }
}

/// Some pair of `em` carries this key.
pub open spec fn seq_has_key(em: Seq<(Seq<u8>, Seq<u8>)>, k: Seq<u8>) -> bool {
    exists|i: int| 0 <= i < em.len() && (#[trigger] em[i]).0 == k
}

/// The pairs are strictly ordered by traversal order (hence no key twice).
pub open spec fn ordered_run(d: Direction, s: Seq<(Seq<u8>, Seq<u8>)>) -> bool {
    forall|i: int, j: int|
        0 <= i < j < s.len() ==> key_before(d, (#[trigger] s[i]).0, (#[trigger] s[j]).0)
}

/// Every key of `em` comes strictly before `bound` in traversal order.
pub open spec fn run_before(d: Direction, em: Seq<(Seq<u8>, Seq<u8>)>, bound: Seq<u8>) -> bool {
    forall|i: int| 0 <= i < em.len() ==> key_before(d, (#[trigger] em[i]).0, bound)
}

/// `em` already holds every in-range key of the engine that traversal
/// order puts strictly before `bound`.
pub open spec fn covers_below(
    e: Engine,
    d: Direction,
    org: Seq<u8>,
    em: Seq<(Seq<u8>, Seq<u8>)>,
    bound: Seq<u8>,
) -> bool {
    forall|k: Seq<u8>|
        #[trigger] e.has_key(k) && in_range(d, org, k) && key_before(d, k, bound) ==> seq_has_key(
            em,
            k,
        )
}

/// `em` holds every in-range key of the engine.
pub open spec fn covers_range(
    e: Engine,
    d: Direction,
    org: Seq<u8>,
    em: Seq<(Seq<u8>, Seq<u8>)>,
) -> bool {
    forall|k: Seq<u8>|
        #[trigger] e.has_key(k) && in_range(d, org, k) ==> seq_has_key(em, k)
}

/// Traversal order is transitive.
proof fn lemma_before_trans(d: Direction, a: Seq<u8>, b: Seq<u8>, c: Seq<u8>)
    requires
        key_before(d, a, b),
        key_before(d, b, c),
    ensures
        key_before(d, a, c),
{
    match d {
        Direction::Forward => lemma_lex_trans(a, b, c),
        Direction::Reverse => lemma_lex_trans(c, b, a),
    }
}

/// Traversal order is irreflexive.
proof fn lemma_before_irrefl(d: Direction, a: Seq<u8>)
    ensures
        !key_before(d, a, a),
{
    lemma_lex_irrefl(a);
}

/// Any two keys are ordered by traversal order or equal.
proof fn lemma_before_total(d: Direction, a: Seq<u8>, b: Seq<u8>)
    ensures
        key_before(d, a, b) || key_before(d, b, a) || a == b,
{
    lemma_lex_total(a, b);
}

/// The resumable batch-buffered iterator shared by the segmented log and
/// the generic store.
pub struct CoreSegmentedLogIterator {
    engine: Option<Engine>,
    current_batch: Vec<(Vec<u8>, Vec<u8>)>,
    batch_index: usize,
    last_key: Option<Vec<u8>>,
    finished: bool,
    batch_size: usize,
    direction: Direction,
    origin: Ghost<Seq<u8>>,
    snap: Ghost<Engine>,
    emitted: Ghost<Seq<(Seq<u8>, Seq<u8>)>>,
}

impl CoreSegmentedLogIterator {
    /// The engine contents the cursor reads (fixed at creation).
    pub closed spec fn snapshot_engine(self) -> Engine {
        self.snap@
    }

    /// The key the traversal started from (inclusive).
    pub closed spec fn origin_key(self) -> Seq<u8> {
        self.origin@
    }

    /// The traversal direction.
    pub closed spec fn dir(self) -> Direction {
        self.direction
    }

    /// Every pair the cursor has handed out so far, in traversal order.
    pub closed spec fn emitted_seq(self) -> Seq<(Seq<u8>, Seq<u8>)> {
        self.emitted@
    }

    /// Whether `close` has released the engine reference.
    pub closed spec fn is_closed(self) -> bool {
        self.engine is None
    }

    /// What `has_next` reports: the buffer holds an unread pair or the
    /// cursor has not yet seen the end of its range.
    pub closed spec fn spec_has_next(self) -> bool {
        self.batch_index < self.current_batch@.len() || !self.finished
    }

    /// The key is buffered and not yet read.
    spec fn in_tail(self, k: Seq<u8>) -> bool {
        exists|i: int|
            self.batch_index <= i < self.current_batch@.len() && (#[trigger] pairs_view(
                self.current_batch@,
            )[i]).0 == k
    }

    /// The key has already been handed out.
    spec fn in_emitted(self, k: Seq<u8>) -> bool {
        exists|i: int| 0 <= i < self.emitted@.len() && (#[trigger] self.emitted@[i]).0 == k
    }

    /// The cursor's invariant.
    pub closed spec fn wf(self) -> bool {
        let c = pairs_view(self.current_batch@);
        let m = self.snap@;
        let d = self.direction;
        let org = self.origin@;
        let em = self.emitted@;
        &&& m.wf()
        &&& (self.engine is Some ==> self.engine->0 == m)
        &&& (self.engine is None ==> self.finished)
        &&& (self.engine is None ==> self.batch_index == c.len())
        &&& self.batch_index <= c.len()
        &&& 1 <= self.batch_size < usize::MAX
        &&& (forall|i: int|
            0 <= i < c.len() ==> m.has_pair((#[trigger] c[i]).0, c[i].1) && in_range(
                d,
                org,
                c[i].0,
            ))
        &&& (forall|i: int, j: int|
            0 <= i < j < c.len() ==> key_before(d, (#[trigger] c[i]).0, (#[trigger] c[j]).0))
        &&& (!self.finished ==> self.last_key is Some)
        &&& (!self.finished ==> in_range(d, org, self.last_key->0@))
        &&& (!self.finished ==> forall|i: int|
            0 <= i < c.len() ==> key_before(d, (#[trigger] c[i]).0, self.last_key->0@))
        &&& (forall|i: int|
            0 <= i < em.len() ==> m.has_pair((#[trigger] em[i]).0, em[i].1) && in_range(
                d,
                org,
                em[i].0,
            ))
        &&& (forall|i: int, j: int|
            0 <= i < j < em.len() ==> key_before(d, (#[trigger] em[i]).0, (#[trigger] em[j]).0))
        &&& (forall|i: int, j: int|
            0 <= i < em.len() && self.batch_index <= j < c.len() ==> key_before(
                d,
                (#[trigger] em[i]).0,
                (#[trigger] c[j]).0,
            ))
        &&& (!self.finished ==> forall|i: int|
            0 <= i < em.len() ==> key_before(d, (#[trigger] em[i]).0, self.last_key->0@))
        &&& (self.engine is Some ==> forall|k: Seq<u8>|
            #[trigger] m.has_key(k) && in_range(d, org, k) && (self.finished || key_before(
                d,
                k,
                self.last_key->0@,
            )) ==> self.in_emitted(k) || self.in_tail(k))
    }

    /// Create a cursor over the engine snapshot from `start_key`
    /// (inclusive) in the given direction, and load its first batch.
    pub(crate) fn new(
        engine: Engine,
        start_key: Vec<u8>,
        batch_size: Option<usize>,
        direction: Direction,
    ) -> (c: CoreSegmentedLogIterator)
        requires
            engine.wf(),
        ensures
            c.wf(),
            !c.is_closed(),
            c.snapshot_engine() == engine,
            c.origin_key() == start_key@,
            c.dir() == direction,
            c.emitted_seq() == Seq::<(Seq<u8>, Seq<u8>)>::empty(),
    {
        let requested = match batch_size {
            Some(b) => b,
            None => 1000,
        };
        let size = if requested == 0 {
            1
        } else if requested == usize::MAX {
            usize::MAX - 1
        } else {
            requested
        };
        let ghost org = start_key@;
        let mut c = CoreSegmentedLogIterator {
            engine: Some(engine),
            current_batch: Vec::new(),
            batch_index: 0,
            last_key: Some(start_key),
            finished: false,
            batch_size: size,
            direction,
            origin: Ghost(org),
            snap: Ghost(engine),
            emitted: Ghost(Seq::empty()),
        };
        proof {
            assert forall|k: Seq<u8>|
                #[trigger] engine.has_key(k) && in_range(direction, org, k) && (c.finished
                    || key_before(direction, k, c.last_key->0@)) implies c.in_emitted(k)
                || c.in_tail(k) by {
                match direction {
                    Direction::Forward => {
                        lemma_lex_le_lt_trans(org, k, org);
                        lemma_lex_irrefl(org);
                    },
                    Direction::Reverse => {
                        lemma_lex_lt_le_trans(org, k, org);
                        lemma_lex_irrefl(org);
                    },
                }
            }
        }
        c.load_next_batch();
        c
    }

    /// Load the next page into the emptied buffer: up to `batch_size`
    /// pairs for the caller plus, when present, one extra pair whose key
    /// only records where the next load resumes.
    fn load_next_batch(&mut self)
        requires
            old(self).wf(),
            old(self).batch_index == old(self).current_batch@.len(),
            !old(self).finished,
        ensures
            final(self).wf(),
            final(self).snapshot_engine() == old(self).snapshot_engine(),
            final(self).origin_key() == old(self).origin_key(),
            final(self).dir() == old(self).dir(),
            final(self).emitted_seq() == old(self).emitted_seq(),
            final(self).is_closed() == old(self).is_closed(),
            final(self).batch_index < final(self).current_batch@.len() || final(self).finished,
    {
        let ghost m = self.snap@;
        let ghost d = self.direction;
        let ghost org = self.origin@;
        let ghost em = self.emitted@;
        let ghost lk = self.last_key->0@;
        let limit = self.batch_size + 1;
        let page: Vec<(Vec<u8>, Vec<u8>)>;
        match (&self.engine, &self.last_key) {
            (Some(e), Some(start)) => {
                page = match self.direction {
                    Direction::Forward => e.scan_forward(start.as_slice(), limit),
                    Direction::Reverse => e.scan_reverse(start.as_slice(), limit),
                };
            },
            _ => {
                proof {
                    assert(false);
                }
                page = Vec::new();
            },
        }
        let ghost p = pairs_view(page@);
        proof {
            // Every page key lies at or past the resumption key, hence in
            // range; and strictly after everything already emitted.
            assert forall|i: int|
                0 <= i < p.len() implies in_range(d, org, (#[trigger] p[i]).0) && !key_before(
                    d,
                    p[i].0,
                    lk,
                ) by {
                match d {
                    Direction::Forward => {
                        assert(lex_le(lk, p[i].0));
                        lemma_lex_le_trans(org, lk, p[i].0);
                        if lex_lt(p[i].0, lk) {
                            lemma_lex_le_lt_trans(lk, p[i].0, lk);
                            lemma_lex_irrefl(lk);
                        }
                    },
                    Direction::Reverse => {
                        assert(lex_le(p[i].0, lk));
                        lemma_lex_le_trans(p[i].0, lk, org);
                        if lex_lt(lk, p[i].0) {
                            lemma_lex_lt_le_trans(lk, p[i].0, lk);
                            lemma_lex_irrefl(lk);
                        }
                    },
                }
            }
            assert forall|i: int, j: int|
                0 <= i < em.len() && 0 <= j < p.len() implies key_before(
                    d,
                    (#[trigger] em[i]).0,
                    (#[trigger] p[j]).0,
                ) by {
                assert(key_before(d, em[i].0, lk));
                match d {
                    Direction::Forward => lemma_lex_lt_le_trans(em[i].0, lk, p[j].0),
                    Direction::Reverse => lemma_lex_le_lt_trans(p[j].0, lk, em[i].0),
                }
            }
        }
        if page.len() == limit {
            let mut page = page;
            let resume = match page.pop() {
                Some(pair) => pair.0,
                None => {
                    proof {
                        assert(false);
                    }
                    Vec::new()
                },
            };
            proof {
                assert(pairs_view(page@) =~= p.drop_last());
            }
            self.last_key = Some(resume);
            self.current_batch = page;
            self.batch_index = 0;
            proof {
                let c = pairs_view(self.current_batch@);
                let nlk = self.last_key->0@;
                assert(nlk == p.last().0);
                assert(c.len() == p.len() - 1);
                assert(forall|i: int| 0 <= i < c.len() ==> c[i] == p[i]);
                assert forall|i: int|
                    0 <= i < c.len() implies key_before(d, (#[trigger] c[i]).0, nlk) by {
                    assert(key_before(d, p[i].0, p[p.len() - 1].0));
                }
                assert forall|i: int|
                    0 <= i < em.len() implies key_before(d, (#[trigger] em[i]).0, nlk) by {
                    assert(key_before(d, em[i].0, p[p.len() - 1].0));
                }
                self.lemma_coverage_after_load(m, d, org, em, lk, p, true);
            }
        } else {
            self.current_batch = page;
            self.batch_index = 0;
            self.finished = true;
            proof {
                self.lemma_coverage_after_load(m, d, org, em, lk, p, false);
            }
        }
    }

    /// Return the next pair, loading a new batch transparently when the
    /// buffered one is consumed; none once the range is exhausted. Each
    /// pair handed out is the least not-yet-emitted in-range entry (in
    /// traversal order), so repeated calls walk the range exactly once.
    pub fn next(&mut self) -> (r: Option<(Vec<u8>, Vec<u8>)>)
        requires
            old(self).wf(),
        ensures
            final(self).wf(),
            final(self).snapshot_engine() == old(self).snapshot_engine(),
            final(self).origin_key() == old(self).origin_key(),
            final(self).dir() == old(self).dir(),
            final(self).is_closed() == old(self).is_closed(),
            match r {
                Some(kv) => {
                    &&& old(self).snapshot_engine().has_pair(kv.0@, kv.1@)
                    &&& in_range(old(self).dir(), old(self).origin_key(), kv.0@)
                    &&& final(self).emitted_seq() == old(self).emitted_seq().push((kv.0@, kv.1@))
                    &&& run_before(old(self).dir(), old(self).emitted_seq(), kv.0@)
                    &&& covers_below(
                        old(self).snapshot_engine(),
                        old(self).dir(),
                        old(self).origin_key(),
                        old(self).emitted_seq(),
                        kv.0@,
                    )
                },
                None => {
                    &&& final(self).emitted_seq() == old(self).emitted_seq()
                    &&& !final(self).spec_has_next()
                    &&& (!old(self).is_closed() ==> covers_range(
                        old(self).snapshot_engine(),
                        old(self).dir(),
                        old(self).origin_key(),
                        old(self).emitted_seq(),
                    ))
                },
            },
    {
        if self.batch_index >= self.current_batch.len() && !self.finished {
            self.load_next_batch();
        }
        let ghost s1 = *self;
        if self.batch_index < self.current_batch.len() {
            let ghost c = pairs_view(s1.current_batch@);
            let ghost bi = self.batch_index as int;
            proof {
                assert(s1.engine is Some);
                if !s1.finished {
                    assert(key_before(
                        s1.direction,
                        pairs_view(s1.current_batch@)[bi].0,
                        s1.last_key->0@,
                    ));
                }
            }
            let key = slice_to_vec(self.current_batch[self.batch_index].0.as_slice());
            let value = slice_to_vec(self.current_batch[self.batch_index].1.as_slice());
            self.batch_index = self.batch_index + 1;
            proof {
                self.emitted@ = self.emitted@.push((key@, value@));
            }
            proof {
                let d = s1.direction;
                let m = s1.snap@;
                let org = s1.origin@;
                let em1 = self.emitted@;
                let em0 = s1.emitted@;
                assert(em1.drop_last() =~= em0);
                assert(em1.last() == c[bi]);
                assert(forall|i: int| 0 <= i < em0.len() ==> em1[i] == em0[i]);
                // The minimality of the emitted pair: every in-range key
                // strictly earlier was covered before, and cannot still sit
                // in the tail, which starts at this very pair.
                assert forall|k2: Seq<u8>|
                    #[trigger] m.has_key(k2) && in_range(d, org, k2) && key_before(
                        d,
                        k2,
                        c[bi].0,
                    ) implies exists|i: int|
                    0 <= i < em0.len() && (#[trigger] em0[i]).0 == k2 by {
                    if !s1.finished {
                        lemma_before_trans(d, k2, c[bi].0, s1.last_key->0@);
                    }
                    assert(s1.in_emitted(k2) || s1.in_tail(k2));
                    if s1.in_tail(k2) {
                        let j = choose|j: int|
                            s1.batch_index <= j < s1.current_batch@.len() && (
                            #[trigger] pairs_view(s1.current_batch@)[j]).0 == k2;
                        if j > bi {
                            lemma_before_trans(d, k2, c[bi].0, c[j].0);
                        }
                        lemma_before_irrefl(d, k2);
                    }
                    let i = choose|i: int|
                        0 <= i < em0.len() && (#[trigger] em0[i]).0 == k2;
                    assert(em0[i].0 == k2);
                }
                // Invariant upkeep: the new emitted element sits after all
                // earlier ones and before the rest of the buffer.
                assert forall|i: int, j: int|
                    0 <= i < j < em1.len() implies key_before(
                        d,
                        (#[trigger] em1[i]).0,
                        (#[trigger] em1[j]).0,
                    ) by {
                    if j < em0.len() {
                        assert(em1[i] == em0[i] && em1[j] == em0[j]);
                    } else {
                        assert(em1[j] == c[bi]);
                        if i < em0.len() {
                            assert(em1[i] == em0[i]);
                            assert(key_before(d, em0[i].0, c[bi].0));
                        }
                    }
                }
                assert forall|k2: Seq<u8>|
                    #[trigger] m.has_key(k2) && in_range(d, org, k2) && (self.finished
                        || key_before(d, k2, self.last_key->0@)) implies self.in_emitted(k2)
                    || self.in_tail(k2) by {
                    assert(s1.in_emitted(k2) || s1.in_tail(k2));
                    if s1.in_emitted(k2) {
                        let i = choose|i: int|
                            0 <= i < em0.len() && (#[trigger] em0[i]).0 == k2;
                        assert(em1[i].0 == k2);
                        assert(self.in_emitted(k2));
                    } else {
                        let j = choose|j: int|
                            s1.batch_index <= j < s1.current_batch@.len() && (
                            #[trigger] pairs_view(s1.current_batch@)[j]).0 == k2;
                        if j == bi {
                            assert(em1[em1.len() - 1].0 == k2);
                            assert(self.in_emitted(k2));
                        } else {
                            assert(pairs_view(self.current_batch@)[j].0 == k2);
                            assert(self.in_tail(k2));
                        }
                    }
                }
            }
            proof {
                let em_old = old(self).emitted_seq();
                assert(self.emitted@ == em_old.push((key@, value@)));
                assert(run_before(old(self).dir(), em_old, key@));
                assert(covers_below(
                    old(self).snapshot_engine(),
                    old(self).dir(),
                    old(self).origin_key(),
                    em_old,
                    key@,
                ));
            }
            Some((key, value))
        } else {
            proof {
                if self.engine is Some {
                    assert forall|k2: Seq<u8>|
                        #[trigger] s1.snap@.has_key(k2) && in_range(s1.direction, s1.origin@, k2)
                        implies exists|i: int|
                        0 <= i < s1.emitted@.len() && (#[trigger] s1.emitted@[i]).0 == k2 by {
                        assert(s1.in_emitted(k2) || s1.in_tail(k2));
                    }
                }
            }
            None
        }
    }

    /// Drain and return the rest of the buffered batch in one call,
    /// leaving the buffer empty; it does not itself load a further page,
    /// so callers repeat the call to walk the range page by page.
    pub fn next_batch(&mut self) -> (r: Vec<(Vec<u8>, Vec<u8>)>)
        requires
            old(self).wf(),
        ensures
            final(self).wf(),
            final(self).snapshot_engine() == old(self).snapshot_engine(),
            final(self).origin_key() == old(self).origin_key(),
            final(self).dir() == old(self).dir(),
            final(self).is_closed() == old(self).is_closed(),
            final(self).emitted_seq() == old(self).emitted_seq() + pairs_view(r@),
            forall|i: int|
                0 <= i < r@.len() ==> old(self).snapshot_engine().has_pair(
                    (#[trigger] pairs_view(r@)[i]).0,
                    pairs_view(r@)[i].1,
                ) && in_range(old(self).dir(), old(self).origin_key(), pairs_view(r@)[i].0),
            ordered_run(old(self).dir(), pairs_view(r@)),
            r@.len() > 0 ==> run_before(
                old(self).dir(),
                old(self).emitted_seq(),
                pairs_view(r@)[0].0,
            ),
            r@.len() == 0 && !old(self).is_closed() ==> covers_range(
                old(self).snapshot_engine(),
                old(self).dir(),
                old(self).origin_key(),
                old(self).emitted_seq(),
            ),
    {
        if self.batch_index >= self.current_batch.len() && !self.finished {
            self.load_next_batch();
        }
        let ghost s1 = *self;
        let ghost c = pairs_view(s1.current_batch@);
        let ghost bi0 = s1.batch_index as int;
        let n = self.current_batch.len();
        let mut out: Vec<(Vec<u8>, Vec<u8>)> = Vec::new();
        let mut i: usize = self.batch_index;
        while i < n
            invariant
                *self == s1,
                s1.wf(),
                bi0 <= i as int <= n as int,
                n == s1.current_batch@.len(),
                bi0 == s1.batch_index as int,
                c == pairs_view(s1.current_batch@),
                out@.len() == i as int - bi0,
                forall|a: int|
                    0 <= a < out@.len() ==> #[trigger] pairs_view(out@)[a] == c[bi0 + a],
            decreases n - i,
        {
            let entry = (
                slice_to_vec(self.current_batch[i].0.as_slice()),
                slice_to_vec(self.current_batch[i].1.as_slice()),
            );
            let ghost o0 = pairs_view(out@);
            out.push(entry);
            proof {
                let o1 = pairs_view(out@);
                assert(forall|a: int| 0 <= a < o0.len() ==> o1[a] == o0[a]);
                assert(o1[o0.len() as int] == c[i as int]);
            }
            i = i + 1;
        }
        self.current_batch = Vec::new();
        self.batch_index = 0;
        proof {
            self.emitted@ = self.emitted@ + pairs_view(out@);
        }
        proof {
            let d = s1.direction;
            let m = s1.snap@;
            let org = s1.origin@;
            let em1 = self.emitted@;
            let em0 = s1.emitted@;
            let rr = pairs_view(out@);
            assert(rr.len() == c.len() - bi0);
            assert(forall|i2: int| 0 <= i2 < em0.len() ==> em1[i2] == em0[i2]);
            assert(forall|j: int| 0 <= j < rr.len() ==> em1[em0.len() + j] == rr[j]);
            assert(forall|j: int| 0 <= j < rr.len() ==> rr[j] == c[bi0 + j]);
            assert forall|i2: int, j: int|
                0 <= i2 < j < em1.len() implies key_before(
                    d,
                    (#[trigger] em1[i2]).0,
                    (#[trigger] em1[j]).0,
                ) by {
                if j < em0.len() {
                    assert(em1[i2] == em0[i2] && em1[j] == em0[j]);
                } else if i2 >= em0.len() {
                    assert(em1[i2] == c[bi0 + (i2 - em0.len())]);
                    assert(em1[j] == c[bi0 + (j - em0.len())]);
                } else {
                    assert(em1[i2] == em0[i2]);
                    assert(em1[j] == c[bi0 + (j - em0.len())]);
                }
            }
            if self.engine is Some {
                assert forall|k2: Seq<u8>|
                    #[trigger] m.has_key(k2) && in_range(d, org, k2) && (self.finished
                        || key_before(d, k2, self.last_key->0@)) implies self.in_emitted(k2)
                    || self.in_tail(k2) by {
                    assert(s1.in_emitted(k2) || s1.in_tail(k2));
                    if s1.in_emitted(k2) {
                        let i2 = choose|i2: int|
                            0 <= i2 < em0.len() && (#[trigger] em0[i2]).0 == k2;
                        assert(em1[i2].0 == k2);
                        assert(self.in_emitted(k2));
                    } else {
                        let jj = choose|jj: int|
                            s1.batch_index <= jj < s1.current_batch@.len() && (
                            #[trigger] pairs_view(s1.current_batch@)[jj]).0 == k2;
                        assert(em1[em0.len() + (jj - bi0)].0 == k2);
                        assert(self.in_emitted(k2));
                    }
                }
            }
            if rr.len() == 0 && self.engine is Some {
                assert forall|k2: Seq<u8>|
                    #[trigger] m.has_key(k2) && in_range(d, org, k2) implies exists|i2: int|
                    0 <= i2 < em0.len() && (#[trigger] em0[i2]).0 == k2 by {
                    assert(s1.in_emitted(k2) || s1.in_tail(k2));
                }
            }
            assert(em1 == em0 + rr);
            assert(ordered_run(d, rr)) by {
                assert forall|i2: int, j: int|
                    0 <= i2 < j < rr.len() implies key_before(
                        d,
                        (#[trigger] rr[i2]).0,
                        (#[trigger] rr[j]).0,
                    ) by {
                    assert(rr[i2] == c[bi0 + i2]);
                    assert(rr[j] == c[bi0 + j]);
                }
            }
            if rr.len() > 0 {
                assert(run_before(d, em0, rr[0].0)) by {
                    assert(rr[0] == c[bi0]);
                    assert forall|i2: int|
                        0 <= i2 < em0.len() implies key_before(d, (#[trigger] em0[i2]).0, rr[0].0)
                        by {
                        assert(key_before(d, s1.emitted@[i2].0, pairs_view(s1.current_batch@)[bi0].0));
                    }
                }
            }
            if rr.len() == 0 && self.engine is Some {
                assert(covers_range(m, d, org, em0));
            }
        }
        out
    }

    /// Whether a future `next` may still yield a pair: true while the
    /// buffer holds unread pairs or the end of the range is not yet seen.
    pub fn has_next(&self) -> (r: bool)
        ensures
            r == self.spec_has_next(),
    {
        self.batch_index < self.current_batch.len() || !self.finished
    }

    /// Release the engine reference and clear all buffered state; further
    /// calls are safe no-ops yielding empty results, never failures.
    pub fn close(&mut self)
        requires
            old(self).wf(),
        ensures
            final(self).wf(),
            final(self).is_closed(),
            !final(self).spec_has_next(),
            final(self).emitted_seq() == old(self).emitted_seq(),
            final(self).snapshot_engine() == old(self).snapshot_engine(),
            final(self).origin_key() == old(self).origin_key(),
            final(self).dir() == old(self).dir(),
    {
        self.engine = None;
        self.current_batch = Vec::new();
        self.batch_index = 0;
        self.finished = true;
        self.last_key = None;
    }

    /// Law: once an open cursor reports no further pair, it has emitted
    /// every in-range entry of its snapshot exactly once, in traversal
    /// order — ascending keys forward, descending keys backward — and
    /// nothing else. The pairs handed out by `next` and the pages handed
    /// out by `next_batch` concatenate to exactly this emitted run.
    pub proof fn lemma_drained_cursor_complete(c: CoreSegmentedLogIterator)
        requires
            c.wf(),
            !c.is_closed(),
            !c.spec_has_next(),
        ensures
            ordered_run(c.dir(), c.emitted_seq()),
            forall|i: int|
                0 <= i < c.emitted_seq().len() ==> c.snapshot_engine().has_pair(
                    (#[trigger] c.emitted_seq()[i]).0,
                    c.emitted_seq()[i].1,
                ) && in_range(c.dir(), c.origin_key(), c.emitted_seq()[i].0),
            covers_range(c.snapshot_engine(), c.dir(), c.origin_key(), c.emitted_seq()),
    {
        assert forall|k: Seq<u8>|
            #[trigger] c.snapshot_engine().has_key(k) && in_range(c.dir(), c.origin_key(), k)
            implies seq_has_key(c.emitted_seq(), k) by {
            assert(c.in_emitted(k) || c.in_tail(k));
        }
    }

    /// Re-establish the coverage clause after a load: every in-range key
    /// the cursor has moved past is either already emitted or buffered.
    proof fn lemma_coverage_after_load(
        self,
        m: Engine,
        d: Direction,
        org: Seq<u8>,
        em: Seq<(Seq<u8>, Seq<u8>)>,
        lk: Seq<u8>,
        p: Seq<(Seq<u8>, Seq<u8>)>,
        full: bool,
    )
        requires
            self.snap@ == m,
            self.direction == d,
            self.origin@ == org,
            self.emitted@ == em,
            self.batch_index == 0,
            m.wf(),
            // the old coverage, with the old buffer fully consumed:
            forall|k: Seq<u8>|
                #[trigger] m.has_key(k) && in_range(d, org, k) && key_before(d, k, lk)
                    ==> (exists|i: int| 0 <= i < em.len() && (#[trigger] em[i]).0 == k),
            // the page properties, direction-generic:
            forall|i: int| 0 <= i < p.len() ==> !key_before(d, (#[trigger] p[i]).0, lk),
            forall|i: int, j: int|
                0 <= i < j < p.len() ==> key_before(d, (#[trigger] p[i]).0, (#[trigger] p[j]).0),
            match d {
                Direction::Forward => forward_page(m, lk, p.len() as nat + 1, p) || forward_page(
                    m,
                    lk,
                    p.len() as nat,
                    p,
                ),
                Direction::Reverse => reverse_page(m, lk, p.len() as nat + 1, p) || reverse_page(
                    m,
                    lk,
                    p.len() as nat,
                    p,
                ),
            },
            full ==> p.len() > 0 && !self.finished && self.last_key is Some && self.last_key->0@
                == p.last().0 && pairs_view(self.current_batch@) =~= p.drop_last(),
            !full ==> self.finished && pairs_view(self.current_batch@) =~= p && (match d {
                Direction::Forward => forward_page(m, lk, p.len() as nat + 1, p),
                Direction::Reverse => reverse_page(m, lk, p.len() as nat + 1, p),
            }),
        ensures
            forall|k: Seq<u8>|
                #[trigger] m.has_key(k) && in_range(d, org, k) && (self.finished || key_before(
                    d,
                    k,
                    self.last_key->0@,
                )) ==> self.in_emitted(k) || self.in_tail(k),
    {
        let c = pairs_view(self.current_batch@);
        assert forall|k: Seq<u8>|
            #[trigger] m.has_key(k) && in_range(d, org, k) && (self.finished || key_before(
                d,
                k,
                self.last_key->0@,
            )) implies self.in_emitted(k) || self.in_tail(k) by {
            lemma_before_total(d, k, lk);
            if key_before(d, k, lk) {
                let i = choose|i: int| 0 <= i < em.len() && (#[trigger] em[i]).0 == k;
                assert(self.in_emitted(k));
            } else {
                // k is at or past the resumption key: page completeness
                // puts it in the page, and strictness keeps it out of the
                // dropped resumption entry.
                let bounded = if full {
                    key_before(d, k, p.last().0)
                } else {
                    true
                };
                assert(bounded);
                match d {
                    Direction::Forward => {
                        assert(lex_le(lk, k));
                        if full {
                            assert(lex_le(k, p.last().0));
                            assert(page_has_key(p, k));
                        } else {
                            assert(page_has_key(p, k));
                        }
                    },
                    Direction::Reverse => {
                        assert(lex_le(k, lk));
                        if full {
                            assert(lex_le(p.last().0, k));
                            assert(page_has_key(p, k));
                        } else {
                            assert(page_has_key(p, k));
                        }
                    },
                }
                let a = choose|a: int| 0 <= a < p.len() && (#[trigger] p[a]).0 == k;
                if full {
                    assert(a != p.len() - 1) by {
                        if a == p.len() - 1 {
                            lemma_before_irrefl(d, k);
                        }
                    }
                    assert(c[a].0 == k);
                    assert(self.in_tail(k));
                } else {
                    assert(c[a].0 == k);
                    assert(self.in_tail(k));
                }
            }
        }
    }
}

} // verus!
