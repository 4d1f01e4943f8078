//! A verified ordered byte-keyed store: the storage-engine collaborator the
//! segmented log and the generic store are layered on.
//!
//! The engine keeps its entries in a vector sorted strictly by key in
//! bytewise lexicographic order, and offers the primitives the layers above
//! consume: point write, atomic batched write, range delete, and bounded
//! forward/reverse page reads over the sorted contents.

use crate::order::{
    bytes_eq, bytes_lt, lemma_lex_asymm, lemma_lex_irrefl, lemma_lex_le_lt_trans,
    lemma_lex_le_not_lt, lemma_lex_lt_le_trans, lemma_lex_total, lemma_lex_trans, lex_le, lex_lt,
};
use vstd::prelude::*;
use vstd::slice::slice_to_vec;

verus! {

/// The pairs held by a vector of byte-string entries, as mathematical values.
pub open spec fn pairs_view(s: Seq<(Vec<u8>, Vec<u8>)>) -> Seq<(Seq<u8>, Seq<u8>)> {
    Seq::new(s.len(), |i: int| (s[i].0@, s[i].1@))
}

/// Keys strictly ascending in lexicographic order (hence unique).
pub open spec fn sorted_asc(s: Seq<(Seq<u8>, Seq<u8>)>) -> bool {
    forall|i: int, j: int|
        0 <= i < j < s.len() ==> lex_lt(#[trigger] s[i].0, #[trigger] s[j].0)
}

/// An ordered key-value store over byte strings.
pub struct Engine {
    entries: Vec<(Vec<u8>, Vec<u8>)>,
}

impl Engine {
    /// The ordered contents: every key-value pair, in ascending key order.
    pub closed spec fn contents(self) -> Seq<(Seq<u8>, Seq<u8>)> {
        pairs_view(self.entries@)
    }

    /// Well-formedness: the contents are strictly sorted by key.
    pub open spec fn wf(self) -> bool {
        sorted_asc(self.contents())
    }

    /// The engine holds exactly this key-value pair.
    pub open spec fn has_pair(self, k: Seq<u8>, v: Seq<u8>) -> bool {
        exists|i: int| 0 <= i < self.contents().len() && #[trigger] self.contents()[i] == (k, v)
    }

    /// The engine holds an entry under this key.
    pub open spec fn has_key(self, k: Seq<u8>) -> bool {
        exists|i: int| 0 <= i < self.contents().len() && (#[trigger] self.contents()[i]).0 == k
    }

    /// In a well-formed engine the pair at each position is the only one
    /// under its key.
    proof fn lemma_key_at_unique(self, i: int)
        requires
            self.wf(),
            0 <= i < self.contents().len(),
        ensures
            forall|j: int|
                0 <= j < self.contents().len() && j != i ==> (#[trigger] self.contents()[j]).0
                    != self.contents()[i].0,
    {
        assert forall|j: int|
            0 <= j < self.contents().len() && j != i implies (#[trigger] self.contents()[j]).0
            != self.contents()[i].0 by {
            if j < i {
                lemma_lex_irrefl(self.contents()[j].0);
            } else {
                lemma_lex_irrefl(self.contents()[i].0);
            }
        }
    }

    /// Create an empty engine.
    pub fn new() -> (e: Engine)
        ensures
            e.wf(),
            e.contents().len() == 0,
    {
        Engine { entries: Vec::new() }
    }

    /// How many entries the engine holds.
    pub fn len(&self) -> (n: usize)
        ensures
            n == self.contents().len(),
    {
        self.entries.len()
    }

    /// Write one key-value pair, replacing any existing entry under the key.
    pub fn put(&mut self, key: &[u8], value: &[u8])
        requires
            old(self).wf(),
        ensures
            final(self).wf(),
            forall|k: Seq<u8>, v: Seq<u8>|
                #![trigger final(self).has_pair(k, v)]
                #![trigger old(self).has_pair(k, v)]
                final(self).has_pair(k, v) <==> if k == key@ {
                    v == value@
                } else {
                    old(self).has_pair(k, v)
                },
            forall|k: Seq<u8>|
                #![trigger final(self).has_key(k)]
                #![trigger old(self).has_key(k)]
                final(self).has_key(k) <==> (k == key@ || old(self).has_key(k)),
            final(self).contents().len() <= old(self).contents().len() + 1,
    {
        let ghost c0 = self.contents();
        let i = find_at_least(&self.entries, key);
        let pair = (slice_to_vec(key), slice_to_vec(value));
        let replace = i < self.entries.len() && bytes_eq(self.entries[i].0.as_slice(), key);
        if replace {
            proof {
                self.lemma_key_at_unique(i as int);
            }
            self.entries.set(i, pair);
            proof {
                let c1 = self.contents();
                assert(c1.len() == c0.len());
                assert(forall|idx: int| 0 <= idx < c0.len() && idx != i ==> c1[idx] == c0[idx]);
                assert(c1[i as int] == (key@, value@));
                assert(c0[i as int].0 == key@);
                assert forall|p: int, q: int|
                    0 <= p < q < c1.len() implies lex_lt(c1[p].0, c1[q].0) by {
                    assert(c1[p].0 == c0[p].0);
                    assert(c1[q].0 == c0[q].0);
                }
                assert forall|k: Seq<u8>, v: Seq<u8>|
                    self.has_pair(k, v) == if k == key@ {
                        v == value@
                    } else {
                        old(self).has_pair(k, v)
                    } by {
                    if k == key@ {
                        if self.has_pair(k, v) {
                            let idx = choose|idx: int|
                                0 <= idx < c1.len() && #[trigger] c1[idx] == (k, v);
                            assert(idx == i) by {
                                if idx != i {
                                    assert(c0[idx].0 == k);
                                }
                            }
                        }
                        if v == value@ {
                            assert(c1[i as int] == (k, v));
                        }
                    } else {
                        if self.has_pair(k, v) {
                            let idx = choose|idx: int|
                                0 <= idx < c1.len() && #[trigger] c1[idx] == (k, v);
                            assert(idx != i);
                            assert(c0[idx] == (k, v));
                        }
                        if old(self).has_pair(k, v) {
                            let idx = choose|idx: int|
                                0 <= idx < c0.len() && #[trigger] c0[idx] == (k, v);
                            assert(idx != i);
                            assert(c1[idx] == (k, v));
                        }
                    }
                }
                assert forall|k: Seq<u8>|
                    self.has_key(k) == (k == key@ || old(self).has_key(k)) by {
                    if self.has_key(k) {
                        let idx = choose|idx: int|
                            0 <= idx < c1.len() && (#[trigger] c1[idx]).0 == k;
                        if idx != i {
                            assert(c0[idx].0 == k);
                        }
                    }
                    if k == key@ {
                        assert(c1[i as int].0 == k);
                    } else if old(self).has_key(k) {
                        let idx = choose|idx: int|
                            0 <= idx < c0.len() && (#[trigger] c0[idx]).0 == k;
                        assert(idx != i);
                        assert(c1[idx].0 == k);
                    }
                }
            }
        } else {
            proof {
                if i < self.entries@.len() {
                    lemma_lex_total(key@, c0[i as int].0);
                }
            }
            self.entries.insert(i, pair);
            proof {
                let c1 = self.contents();
                let iv = i as int;
                old(self).entries@.insert_ensures(iv, pair);
                assert(c1.len() == c0.len() + 1);
                assert(forall|idx: int| 0 <= idx < iv ==> c1[idx] == c0[idx]);
                assert forall|idx: int| iv < idx < c1.len() implies c1[idx] == c0[idx - 1] by {
                    assert(self.entries@[idx] == old(self).entries@[idx - 1]);
                }
                assert(c1[iv] == (key@, value@));
                // All keys before the slot are below the new key, all after are above.
                assert(forall|idx: int| 0 <= idx < iv ==> lex_lt(c0[idx].0, key@));
                assert forall|idx: int| iv <= idx < c0.len() implies lex_lt(key@, c0[idx].0) by {
                    if idx > iv {
                        lemma_lex_trans(key@, c0[iv].0, c0[idx].0);
                    }
                }
                assert forall|p: int, q: int|
                    0 <= p < q < c1.len() implies lex_lt(c1[p].0, c1[q].0) by {
                    if p < iv && q < iv {
                    } else if p < iv && q == iv {
                    } else if p < iv && q > iv {
                        lemma_lex_trans(c1[p].0, key@, c1[q].0);
                    } else if p == iv {
                        assert(c1[q].0 == c0[q - 1].0);
                    } else {
                        assert(c1[p].0 == c0[p - 1].0);
                        assert(c1[q].0 == c0[q - 1].0);
                    }
                }
                // No old entry carries the new key.
                assert forall|idx: int| 0 <= idx < c0.len() implies c0[idx].0 != key@ by {
                    if idx < iv {
                        lemma_lex_irrefl(key@);
                    } else {
                        lemma_lex_irrefl(key@);
                    }
                }
                assert forall|k: Seq<u8>, v: Seq<u8>|
                    self.has_pair(k, v) == if k == key@ {
                        v == value@
                    } else {
                        old(self).has_pair(k, v)
                    } by {
                    if self.has_pair(k, v) {
                        let idx = choose|idx: int|
                            0 <= idx < c1.len() && #[trigger] c1[idx] == (k, v);
                        if idx < iv {
                            assert(c0[idx] == (k, v));
                        } else if idx > iv {
                            assert(c0[idx - 1] == (k, v));
                        }
                    }
                    if k == key@ && v == value@ {
                        assert(c1[iv] == (k, v));
                    }
                    if k != key@ && old(self).has_pair(k, v) {
                        let idx = choose|idx: int|
                            0 <= idx < c0.len() && #[trigger] c0[idx] == (k, v);
                        if idx < iv {
                            assert(c1[idx] == (k, v));
                        } else {
                            assert(c1[idx + 1] == (k, v));
                        }
                    }
                }
                assert forall|k: Seq<u8>|
                    self.has_key(k) == (k == key@ || old(self).has_key(k)) by {
                    if self.has_key(k) {
                        let idx = choose|idx: int|
                            0 <= idx < c1.len() && (#[trigger] c1[idx]).0 == k;
                        if idx < iv {
                            assert(c0[idx].0 == k);
                        } else if idx > iv {
                            assert(c0[idx - 1].0 == k);
                        }
                    }
                    if k == key@ {
                        assert(c1[iv].0 == k);
                    } else if old(self).has_key(k) {
                        let idx = choose|idx: int|
                            0 <= idx < c0.len() && (#[trigger] c0[idx]).0 == k;
                        if idx < iv {
                            assert(c1[idx].0 == k);
                        } else {
                            assert(c1[idx + 1].0 == k);
                        }
                    }
                }
            }
        }
    }
}

/// The value the last entry of a batch assigns to `k`, if any entry does:
/// when one batch writes the same key twice, the later write wins.
pub open spec fn batch_lookup(b: Seq<(Seq<u8>, Seq<u8>)>, k: Seq<u8>) -> Option<Seq<u8>>
    decreases b.len(),
{
    if b.len() == 0 {
        None
    } else if b.last().0 == k {
        Some(b.last().1)
    } else {
        batch_lookup(b.drop_last(), k)
    }
}

/// A bounded ascending page of an engine's contents, read from `start`
/// (inclusive): at most `limit` pairs, all present in the engine, all at or
/// above `start`, strictly ascending, and complete — a short page holds every
/// key at or above `start`, and a full page every such key up to its last.
pub open spec fn forward_page(e: Engine, start: Seq<u8>, limit: nat, r: Seq<(Seq<u8>, Seq<u8>)>) -> bool {
    &&& r.len() <= limit
    &&& forall|i: int| 0 <= i < r.len() ==> e.has_pair((#[trigger] r[i]).0, r[i].1)
    &&& forall|i: int| 0 <= i < r.len() ==> lex_le(start, (#[trigger] r[i]).0)
    &&& sorted_asc(r)
    &&& (r.len() < limit ==> forall|k: Seq<u8>|
        #[trigger] e.has_key(k) && lex_le(start, k) ==> page_has_key(r, k))
    &&& (r.len() > 0 ==> forall|k: Seq<u8>|
        #[trigger] e.has_key(k) && lex_le(start, k) && lex_le(k, r.last().0) ==> page_has_key(r, k))
}

/// A bounded descending page of an engine's contents, read from `start`
/// (inclusive) backward: the mirror image of `forward_page`.
pub open spec fn reverse_page(e: Engine, start: Seq<u8>, limit: nat, r: Seq<(Seq<u8>, Seq<u8>)>) -> bool {
    &&& r.len() <= limit
    &&& forall|i: int| 0 <= i < r.len() ==> e.has_pair((#[trigger] r[i]).0, r[i].1)
    &&& forall|i: int| 0 <= i < r.len() ==> lex_le((#[trigger] r[i]).0, start)
    &&& sorted_desc(r)
    &&& (r.len() < limit ==> forall|k: Seq<u8>|
        #[trigger] e.has_key(k) && lex_le(k, start) ==> page_has_key(r, k))
    &&& (r.len() > 0 ==> forall|k: Seq<u8>|
        #[trigger] e.has_key(k) && lex_le(k, start) && lex_le(r.last().0, k) ==> page_has_key(r, k))
}

/// A bounded descending page read from the very end of the contents: the
/// newest entries first, complete down to the last pair returned.
pub open spec fn tail_page(e: Engine, limit: nat, r: Seq<(Seq<u8>, Seq<u8>)>) -> bool {
    &&& r.len() <= limit
    &&& forall|i: int| 0 <= i < r.len() ==> e.has_pair((#[trigger] r[i]).0, r[i].1)
    &&& sorted_desc(r)
    &&& (r.len() < limit ==> forall|k: Seq<u8>| #[trigger] e.has_key(k) ==> page_has_key(r, k))
    &&& (r.len() > 0 ==> forall|k: Seq<u8>|
        #[trigger] e.has_key(k) && lex_le(r.last().0, k) ==> page_has_key(r, k))
}

/// Keys strictly descending in lexicographic order.
pub open spec fn sorted_desc(s: Seq<(Seq<u8>, Seq<u8>)>) -> bool {
    forall|i: int, j: int|
        0 <= i < j < s.len() ==> lex_lt(#[trigger] s[j].0, #[trigger] s[i].0)
}

/// Some pair of the page carries this key.
pub open spec fn page_has_key(r: Seq<(Seq<u8>, Seq<u8>)>, k: Seq<u8>) -> bool {
    exists|i: int| 0 <= i < r.len() && (#[trigger] r[i]).0 == k
}

impl Engine {
    /// Apply a batch of writes as one atomic unit; a later write to the same
    /// key supersedes an earlier one within the batch.
    pub fn write_batch(&mut self, batch: &Vec<(Vec<u8>, Vec<u8>)>)
        requires
            old(self).wf(),
        ensures
            final(self).wf(),
            forall|k: Seq<u8>, v: Seq<u8>|
                #![trigger final(self).has_pair(k, v)]
                #![trigger old(self).has_pair(k, v)]
                final(self).has_pair(k, v) <==> match batch_lookup(pairs_view(batch@), k) {
                    Some(bv) => v == bv,
                    None => old(self).has_pair(k, v),
                },
            forall|k: Seq<u8>|
                #![trigger final(self).has_key(k)]
                #![trigger old(self).has_key(k)]
                final(self).has_key(k) <==> (batch_lookup(pairs_view(batch@), k) is Some
                    || old(self).has_key(k)),
    {
        let ghost b = pairs_view(batch@);
        let mut i: usize = 0;
        while i < batch.len()
            invariant
                old(self).wf(),
                self.wf(),
                i <= batch@.len(),
                b == pairs_view(batch@),
                forall|k: Seq<u8>, v: Seq<u8>|
                    #![trigger self.has_pair(k, v)]
                    #![trigger old(self).has_pair(k, v)]
                    self.has_pair(k, v) <==> match batch_lookup(b.take(i as int), k) {
                        Some(bv) => v == bv,
                        None => old(self).has_pair(k, v),
                    },
                forall|k: Seq<u8>|
                    #![trigger self.has_key(k)]
                    #![trigger old(self).has_key(k)]
                    self.has_key(k) <==> (batch_lookup(b.take(i as int), k) is Some
                        || old(self).has_key(k)),
            decreases batch@.len() - i,
        {
            let ghost before = *self;
            let ghost iv = i as int;
            proof {
                assert(b.take(0) =~= Seq::<(Seq<u8>, Seq<u8>)>::empty());
            }
            self.put(batch[i].0.as_slice(), batch[i].1.as_slice());
            proof {
                assert(b.take(iv + 1).drop_last() =~= b.take(iv));
                assert(b.take(iv + 1).last() == b[iv]);
                assert(b[iv].0 == batch@[iv].0@ && b[iv].1 == batch@[iv].1@);
                assert forall|k: Seq<u8>, v: Seq<u8>|
                    self.has_pair(k, v) == match batch_lookup(b.take(iv + 1), k) {
                        Some(bv) => v == bv,
                        None => old(self).has_pair(k, v),
                    } by {
                    if k == b[iv].0 {
                        assert(batch_lookup(b.take(iv + 1), k) == Some(b[iv].1));
                    } else {
                        assert(batch_lookup(b.take(iv + 1), k) == batch_lookup(b.take(iv), k));
                        assert(self.has_pair(k, v) == before.has_pair(k, v));
                    }
                }
                assert forall|k: Seq<u8>|
                    self.has_key(k) == (batch_lookup(b.take(iv + 1), k) is Some
                        || old(self).has_key(k)) by {
                    if k == b[iv].0 {
                        assert(batch_lookup(b.take(iv + 1), k) == Some(b[iv].1));
                    } else {
                        assert(batch_lookup(b.take(iv + 1), k) == batch_lookup(b.take(iv), k));
                        assert(self.has_key(k) == before.has_key(k));
                    }
                }
            }
            i = i + 1;
        }
        proof {
            assert(b.take(b.len() as int) =~= b);
        }
    }

    /// Delete every entry whose key lies in the half-open range
    /// `[from, to)`; entries outside the range are untouched.
    pub fn delete_range(&mut self, from: &[u8], to: &[u8])
        requires
            old(self).wf(),
        ensures
            final(self).wf(),
            forall|k: Seq<u8>, v: Seq<u8>|
                #![trigger final(self).has_pair(k, v)]
                #![trigger old(self).has_pair(k, v)]
                final(self).has_pair(k, v) <==> (old(self).has_pair(k, v) && !(lex_le(from@, k)
                    && lex_lt(k, to@))),
            forall|k: Seq<u8>|
                #![trigger final(self).has_key(k)]
                #![trigger old(self).has_key(k)]
                final(self).has_key(k) <==> (old(self).has_key(k) && !(lex_le(from@, k)
                    && lex_lt(k, to@))),
    {
        let ghost c0 = self.contents();
        let ghost fv = from@;
        let ghost tv = to@;
        let mut kept: Vec<(Vec<u8>, Vec<u8>)> = Vec::new();
        let mut i: usize = 0;
        while i < self.entries.len()
            invariant
                old(self).wf(),
                self == old(self),
                c0 == self.contents(),
                fv == from@,
                tv == to@,
                i <= c0.len(),
                forall|a: int|
                    0 <= a < kept@.len() ==> kept_source(c0, i as int, #[trigger] pairs_view(
                        kept@,
                    )[a], fv, tv),
                forall|j: int|
                    0 <= j < i && !(lex_le(fv, (#[trigger] c0[j]).0) && lex_lt(c0[j].0, tv))
                        ==> page_has_key(pairs_view(kept@), c0[j].0),
                sorted_asc(pairs_view(kept@)),
                forall|a: int, j: int|
                    0 <= a < kept@.len() && i <= j < c0.len() ==> lex_lt(
                        (#[trigger] pairs_view(kept@)[a]).0,
                        (#[trigger] c0[j]).0,
                    ),
            decreases c0.len() - i,
        {
            let ghost iv = i as int;
            let below_from = bytes_lt(self.entries[i].0.as_slice(), from);
            let below_to = bytes_lt(self.entries[i].0.as_slice(), to);
            let keep = below_from || !below_to;
            proof {
                lemma_lex_le_not_lt(fv, c0[iv].0);
            }
            if keep {
                let entry = (
                    slice_to_vec(self.entries[i].0.as_slice()),
                    slice_to_vec(self.entries[i].1.as_slice()),
                );
                let ghost kc0 = pairs_view(kept@);
                kept.push(entry);
                proof {
                    let kc1 = pairs_view(kept@);
                    assert(kc1.len() == kc0.len() + 1);
                    assert(forall|a: int| 0 <= a < kc0.len() ==> kc1[a] == kc0[a]);
                    assert(kc1[kc0.len() as int] == c0[iv]);
                    assert(!(lex_le(fv, c0[iv].0) && lex_lt(c0[iv].0, tv)));
                    assert(kept_source(c0, iv + 1, c0[iv], fv, tv));
                    assert forall|a: int| 0 <= a < kc1.len() implies kept_source(
                        c0,
                        iv + 1,
                        #[trigger] kc1[a],
                        fv,
                        tv,
                    ) by {
                        if a < kc0.len() {
                            assert(kept_source(c0, iv, kc0[a], fv, tv));
                            lemma_kept_source_widen(c0, iv, iv + 1, kc0[a], fv, tv);
                            assert(kc1[a] == kc0[a]);
                        }
                    }
                    assert forall|p: int, q: int|
                        0 <= p < q < kc1.len() implies lex_lt(kc1[p].0, kc1[q].0) by {
                        if q < kc0.len() {
                            assert(kc1[p] == kc0[p] && kc1[q] == kc0[q]);
                        } else {
                            assert(kc1[p] == kc0[p]);
                            assert(lex_lt(kc0[p].0, c0[iv].0));
                        }
                    }
                    assert forall|j: int|
                        0 <= j < iv + 1 && !(lex_le(fv, (#[trigger] c0[j]).0) && lex_lt(
                            c0[j].0,
                            tv,
                        )) implies page_has_key(kc1, c0[j].0) by {
                        if j < iv {
                            assert(page_has_key(kc0, c0[j].0));
                            let a = choose|a: int|
                                0 <= a < kc0.len() && (#[trigger] kc0[a]).0 == c0[j].0;
                            assert(kc1[a].0 == c0[j].0);
                        } else {
                            assert(kc1[kc0.len() as int].0 == c0[iv].0);
                        }
                    }
                    assert forall|a: int, j: int|
                        0 <= a < kc1.len() && iv + 1 <= j < c0.len() implies lex_lt(
                            (#[trigger] kc1[a]).0,
                            (#[trigger] c0[j]).0,
                        ) by {
                        if a < kc0.len() {
                            assert(kc1[a] == kc0[a]);
                            assert(lex_lt(kc0[a].0, c0[j].0));
                        } else {
                            assert(kc1[a] == c0[iv]);
                        }
                    }
                }
            }
            i = i + 1;
        }
        self.entries = kept;
        proof {
            let c1 = self.contents();
            assert forall|k: Seq<u8>, v: Seq<u8>|
                self.has_pair(k, v) == (old(self).has_pair(k, v) && !(lex_le(fv, k) && lex_lt(
                    k,
                    tv,
                ))) by {
                if self.has_pair(k, v) {
                    let a = choose|a: int| 0 <= a < c1.len() && #[trigger] c1[a] == (k, v);
                    assert(kept_source(c0, c0.len() as int, c1[a], fv, tv));
                    let j = choose|j: int|
                        0 <= j < c0.len() && c0[j] == c1[a] && !(lex_le(fv, c0[j].0) && lex_lt(
                            c0[j].0,
                            tv,
                        ));
                    assert(c0[j] == (k, v));
                }
                if old(self).has_pair(k, v) && !(lex_le(fv, k) && lex_lt(k, tv)) {
                    let j = choose|j: int| 0 <= j < c0.len() && #[trigger] c0[j] == (k, v);
                    assert(page_has_key(c1, c0[j].0));
                    let a = choose|a: int| 0 <= a < c1.len() && (#[trigger] c1[a]).0 == c0[j].0;
                    assert(kept_source(c0, c0.len() as int, c1[a], fv, tv));
                    let j2 = choose|j2: int|
                        0 <= j2 < c0.len() && c0[j2] == c1[a] && !(lex_le(fv, c0[j2].0) && lex_lt(
                            c0[j2].0,
                            tv,
                        ));
                    assert(c0[j2].0 == c0[j].0);
                    old(self).lemma_key_at_unique(j);
                    assert(j2 == j);
                    assert(c1[a] == (k, v));
                }
            }
            assert forall|k: Seq<u8>|
                self.has_key(k) == (old(self).has_key(k) && !(lex_le(fv, k) && lex_lt(k, tv)))
                by {
                if self.has_key(k) {
                    let a = choose|a: int| 0 <= a < c1.len() && (#[trigger] c1[a]).0 == k;
                    assert(kept_source(c0, c0.len() as int, c1[a], fv, tv));
                    let j = choose|j: int|
                        0 <= j < c0.len() && c0[j] == c1[a] && !(lex_le(fv, c0[j].0) && lex_lt(
                            c0[j].0,
                            tv,
                        ));
                    assert(c0[j].0 == k);
                }
                if old(self).has_key(k) && !(lex_le(fv, k) && lex_lt(k, tv)) {
                    let j = choose|j: int| 0 <= j < c0.len() && (#[trigger] c0[j]).0 == k;
                    assert(!(lex_le(fv, c0[j].0) && lex_lt(c0[j].0, tv)));
                    assert(page_has_key(c1, c0[j].0));
                }
            }
        }
    }


    /// Read up to `limit` pairs in ascending key order, starting at the
    /// first key at or above `start`.
    pub fn scan_forward(&self, start: &[u8], limit: usize) -> (out: Vec<(Vec<u8>, Vec<u8>)>)
        requires
            self.wf(),
        ensures
            forward_page(*self, start@, limit as nat, pairs_view(out@)),
    {
        let lo = find_at_least(&self.entries, start);
        let mut out: Vec<(Vec<u8>, Vec<u8>)> = Vec::new();
        let mut i: usize = lo;
        while i < self.entries.len() && out.len() < limit
            invariant
                self.wf(),
                lo <= i <= self.contents().len(),
                out@.len() == i - lo,
                out@.len() <= limit,
                forall|j: int| 0 <= j < lo ==> lex_lt((#[trigger] self.contents()[j]).0, start@),
                lo < self.contents().len() ==> !lex_lt(self.contents()[lo as int].0, start@),
                forall|a: int|
                    0 <= a < out@.len() ==> #[trigger] pairs_view(out@)[a] == self.contents()[lo
                        + a],
            decreases self.contents().len() - i,
        {
            let entry = (
                slice_to_vec(self.entries[i].0.as_slice()),
                slice_to_vec(self.entries[i].1.as_slice()),
            );
            let ghost o0 = pairs_view(out@);
            out.push(entry);
            proof {
                let o1 = pairs_view(out@);
                assert(o1.len() == o0.len() + 1);
                assert(forall|a: int| 0 <= a < o0.len() ==> o1[a] == o0[a]);
                assert(o1[o0.len() as int] == self.contents()[i as int]);
            }
            i = i + 1;
        }
        proof {
            self.lemma_scan_forward_page(start@, limit as nat, lo as int, pairs_view(out@));
        }
        out
    }

    /// The collected window `c[lo .. lo + r.len()]` forms a forward page.
    proof fn lemma_scan_forward_page(self, start: Seq<u8>, limit: nat, lo: int, r: Seq<(Seq<u8>, Seq<u8>)>)
        requires
            self.wf(),
            0 <= lo <= self.contents().len(),
            r.len() <= limit,
            lo + r.len() <= self.contents().len(),
            forall|j: int| 0 <= j < lo ==> lex_lt((#[trigger] self.contents()[j]).0, start),
            lo < self.contents().len() ==> !lex_lt(self.contents()[lo].0, start),
            forall|a: int| 0 <= a < r.len() ==> #[trigger] r[a] == self.contents()[lo + a],
            r.len() < limit ==> lo + r.len() == self.contents().len(),
        ensures
            forward_page(self, start, limit, r),
    {
        let c = self.contents();
        assert forall|a: int| 0 <= a < r.len() implies lex_le(start, (#[trigger] r[a]).0) by {
            lemma_lex_le_not_lt(start, c[lo].0);
            if a > 0 {
                lemma_lex_le_lt_trans(start, c[lo].0, c[lo + a].0);
            }
        }
        assert forall|a: int| 0 <= a < r.len() implies self.has_pair(
            (#[trigger] r[a]).0,
            r[a].1,
        ) by {
            assert(c[lo + a] == (r[a].0, r[a].1));
        }
        if r.len() < limit {
            assert forall|k: Seq<u8>| #[trigger] self.has_key(k) && lex_le(start, k) implies
                page_has_key(r, k) by {
                let j = choose|j: int| 0 <= j < c.len() && (#[trigger] c[j]).0 == k;
                if j < lo {
                    lemma_lex_asymm(c[j].0, start);
                    assert(lex_le(start, c[j].0) && lex_lt(c[j].0, start));
                    assert(false);
                } else {
                    assert(r[j - lo].0 == k);
                }
            }
        }
        if r.len() > 0 {
            assert forall|k: Seq<u8>| #[trigger] self.has_key(k) && lex_le(start, k) && lex_le(
                k,
                r.last().0,
            ) implies page_has_key(r, k) by {
                let j = choose|j: int| 0 <= j < c.len() && (#[trigger] c[j]).0 == k;
                let hi = lo + r.len() - 1;
                assert(r.last() == c[hi]);
                if j < lo {
                    if lex_lt(c[j].0, start) && lex_le(start, c[j].0) {
                        lemma_lex_asymm(c[j].0, start);
                    }
                    assert(false);
                } else if j > hi {
                    lemma_lex_le_lt_trans(k, c[hi].0, c[j].0);
                    lemma_lex_irrefl(k);
                    assert(false);
                } else {
                    assert(r[j - lo].0 == k);
                }
            }
        }
    }
}

impl Engine {
    /// Read up to `limit` pairs in descending key order, starting at the
    /// last key at or below `start`.
    pub fn scan_reverse(&self, start: &[u8], limit: usize) -> (out: Vec<(Vec<u8>, Vec<u8>)>)
        requires
            self.wf(),
        ensures
            reverse_page(*self, start@, limit as nat, pairs_view(out@)),
    {
        let hi = find_above(&self.entries, start);
        let out = collect_desc(&self.entries, hi, limit);
        proof {
            let c = self.contents();
            let r = pairs_view(out@);
            let hv = hi as int;
            assert forall|a: int| 0 <= a < r.len() implies self.has_pair(
                (#[trigger] r[a]).0,
                r[a].1,
            ) && lex_le(r[a].0, start@) by {
                assert(c[hv - 1 - a] == (r[a].0, r[a].1));
            }
            assert forall|p: int, q: int|
                0 <= p < q < r.len() implies lex_lt(r[q].0, r[p].0) by {
                assert(r[p] == c[hv - 1 - p]);
                assert(r[q] == c[hv - 1 - q]);
            }
            if r.len() < limit {
                assert forall|k: Seq<u8>| #[trigger] self.has_key(k) && lex_le(k, start@) implies
                    page_has_key(r, k) by {
                    let j = choose|j: int| 0 <= j < c.len() && (#[trigger] c[j]).0 == k;
                    if j >= hv {
                        self.lemma_above_window(start@, hv, j);
                    } else {
                        assert(r[hv - 1 - j].0 == k);
                    }
                }
            }
            if r.len() > 0 {
                assert forall|k: Seq<u8>| #[trigger] self.has_key(k) && lex_le(k, start@)
                    && lex_le(r.last().0, k) implies page_has_key(r, k) by {
                    let j = choose|j: int| 0 <= j < c.len() && (#[trigger] c[j]).0 == k;
                    let lo = hv - r.len();
                    assert(r.last() == c[lo]);
                    if j >= hv {
                        self.lemma_above_window(start@, hv, j);
                    } else if j < lo {
                        lemma_lex_le_lt_trans(c[lo].0, c[j].0, c[lo].0);
                        lemma_lex_irrefl(c[lo].0);
                        assert(false);
                    } else {
                        assert(r[hv - 1 - j].0 == k);
                    }
                }
            }
        }
        out
    }

    /// Read up to `limit` of the newest (greatest-keyed) pairs, newest first.
    pub fn last_entries(&self, limit: usize) -> (out: Vec<(Vec<u8>, Vec<u8>)>)
        requires
            self.wf(),
        ensures
            tail_page(*self, limit as nat, pairs_view(out@)),
    {
        let hi = self.entries.len();
        let out = collect_desc(&self.entries, hi, limit);
        proof {
            let c = self.contents();
            let r = pairs_view(out@);
            let hv = hi as int;
            assert forall|a: int| 0 <= a < r.len() implies self.has_pair(
                (#[trigger] r[a]).0,
                r[a].1,
            ) by {
                assert(c[hv - 1 - a] == (r[a].0, r[a].1));
            }
            assert forall|p: int, q: int|
                0 <= p < q < r.len() implies lex_lt(r[q].0, r[p].0) by {
                assert(r[p] == c[hv - 1 - p]);
                assert(r[q] == c[hv - 1 - q]);
            }
            if r.len() < limit {
                assert forall|k: Seq<u8>| #[trigger] self.has_key(k) implies page_has_key(r, k)
                    by {
                    let j = choose|j: int| 0 <= j < c.len() && (#[trigger] c[j]).0 == k;
                    assert(r[hv - 1 - j].0 == k);
                }
            }
            if r.len() > 0 {
                assert forall|k: Seq<u8>| #[trigger] self.has_key(k) && lex_le(r.last().0, k)
                    implies page_has_key(r, k) by {
                    let j = choose|j: int| 0 <= j < c.len() && (#[trigger] c[j]).0 == k;
                    let lo = hv - r.len();
                    assert(r.last() == c[lo]);
                    if j < lo {
                        lemma_lex_le_lt_trans(c[lo].0, c[j].0, c[lo].0);
                        lemma_lex_irrefl(c[lo].0);
                        assert(false);
                    } else {
                        assert(r[hv - 1 - j].0 == k);
                    }
                }
            }
        }
        out
    }

    /// A key at or past the scan window's upper bound lies strictly above
    /// the start the window was found for.
    proof fn lemma_above_window(self, start: Seq<u8>, hi: int, j: int)
        requires
            self.wf(),
            0 <= hi <= j < self.contents().len(),
            lex_lt(start, self.contents()[hi].0),
        ensures
            !lex_le(self.contents()[j].0, start),
    {
        let c = self.contents();
        if j > hi {
            lemma_lex_trans(start, c[hi].0, c[j].0);
        }
        if lex_le(c[j].0, start) {
            lemma_lex_le_lt_trans(c[j].0, start, c[j].0);
            lemma_lex_irrefl(c[j].0);
        }
    }

    /// An independent engine holding the same contents.
    pub fn snapshot(&self) -> (r: Engine)
        ensures
            r.contents() == self.contents(),
    {
        let mut v: Vec<(Vec<u8>, Vec<u8>)> = Vec::new();
        let mut i: usize = 0;
        while i < self.entries.len()
            invariant
                i <= self.entries@.len(),
                v@.len() == i,
                forall|a: int|
                    0 <= a < i ==> #[trigger] pairs_view(v@)[a] == self.contents()[a],
            decreases self.entries@.len() - i,
        {
            let entry = (
                slice_to_vec(self.entries[i].0.as_slice()),
                slice_to_vec(self.entries[i].1.as_slice()),
            );
            let ghost v0 = pairs_view(v@);
            v.push(entry);
            proof {
                let v1 = pairs_view(v@);
                assert(forall|a: int| 0 <= a < v0.len() ==> v1[a] == v0[a]);
                assert(v1[v0.len() as int] == self.contents()[i as int]);
            }
            i = i + 1;
        }
        let r = Engine { entries: v };
        proof {
            assert(r.contents() =~= self.contents());
        }
        r
    }
}

/// What a one-entry tail page says of the whole store: an empty page means
/// an empty store, and a returned pair is the store's greatest entry.
pub proof fn lemma_tail_page_one(e: Engine, r: Seq<(Seq<u8>, Seq<u8>)>)
    requires
        e.wf(),
        tail_page(e, 1, r),
    ensures
        r.len() == 0 ==> e.contents().len() == 0,
        r.len() == 1 ==> e.contents().len() > 0 && r[0] == e.contents().last() && (forall|
            k: Seq<u8>,
        |
            #[trigger] e.has_key(k) ==> lex_le(k, r[0].0)),
{
    let c = e.contents();
    if r.len() == 0 {
        if c.len() > 0 {
            assert(e.has_key(c[0].0));
            assert(page_has_key(r, c[0].0));
        }
    } else {
        assert(e.has_pair(r[0].0, r[0].1));
        let j = choose|j: int| 0 <= j < c.len() && #[trigger] c[j] == (r[0].0, r[0].1);
        assert(c.len() > 0);
        assert forall|k: Seq<u8>| #[trigger] e.has_key(k) implies lex_le(k, r[0].0) by {
            lemma_lex_le_not_lt(k, r[0].0);
            if lex_lt(r[0].0, k) {
                assert(lex_le(r[0].0, k));
                assert(page_has_key(r, k));
                let a = choose|a: int| 0 <= a < r.len() && (#[trigger] r[a]).0 == k;
                assert(r[0].0 == k);
                lemma_lex_irrefl(k);
            }
        }
        assert(e.has_key(c.last().0)) by {
            assert((c[c.len() - 1]).0 == c.last().0);
        }
        assert(lex_le(c.last().0, r[0].0));
        if j < c.len() - 1 {
            assert(lex_lt(c[j].0, c.last().0));
            lemma_lex_lt_le_trans(c[j].0, c.last().0, r[0].0);
            lemma_lex_irrefl(c[j].0);
            assert(false);
        }
        assert(r[0] == c.last());
    }
}

/// Collect the `limit` pairs just below position `hi`, in descending order.
fn collect_desc(entries: &Vec<(Vec<u8>, Vec<u8>)>, hi: usize, limit: usize) -> (out: Vec<
    (Vec<u8>, Vec<u8>),
>)
    requires
        hi <= entries@.len(),
    ensures
        out@.len() <= limit,
        out@.len() <= hi,
        out@.len() < limit ==> out@.len() == hi,
        forall|a: int|
            0 <= a < out@.len() ==> #[trigger] pairs_view(out@)[a] == pairs_view(entries@)[hi - 1
                - a],
{
    let mut out: Vec<(Vec<u8>, Vec<u8>)> = Vec::new();
    let mut i: usize = hi;
    while i > 0 && out.len() < limit
        invariant
            i <= hi <= entries@.len(),
            out@.len() == hi - i,
            out@.len() <= limit,
            forall|a: int|
                0 <= a < out@.len() ==> #[trigger] pairs_view(out@)[a] == pairs_view(entries@)[hi
                    - 1 - a],
        decreases i,
    {
        i = i - 1;
        let entry = (
            slice_to_vec(entries[i].0.as_slice()),
            slice_to_vec(entries[i].1.as_slice()),
        );
        let ghost o0 = pairs_view(out@);
        out.push(entry);
        proof {
            let o1 = pairs_view(out@);
            assert(forall|a: int| 0 <= a < o0.len() ==> o1[a] == o0[a]);
            assert(o1[o0.len() as int] == pairs_view(entries@)[i as int]);
        }
    }
    out
}

/// The pair stands at some position below `bound` in `c`, outside the
/// deleted range `[from, to)`.
spec fn kept_source(
    c: Seq<(Seq<u8>, Seq<u8>)>,
    bound: int,
    p: (Seq<u8>, Seq<u8>),
    from: Seq<u8>,
    to: Seq<u8>,
) -> bool {
    exists|j: int|
        0 <= j < bound && #[trigger] c[j] == p && !(lex_le(from, c[j].0) && lex_lt(c[j].0, to))
}

proof fn lemma_kept_source_widen(
    c: Seq<(Seq<u8>, Seq<u8>)>,
    bound1: int,
    bound2: int,
    p: (Seq<u8>, Seq<u8>),
    from: Seq<u8>,
    to: Seq<u8>,
)
    requires
        bound1 <= bound2,
        kept_source(c, bound1, p, from, to),
    ensures
        kept_source(c, bound2, p, from, to),
{
    let j = choose|j: int|
        0 <= j < bound1 && #[trigger] c[j] == p && !(lex_le(from, c[j].0) && lex_lt(c[j].0, to));
    assert(0 <= j < bound2 && c[j] == p && !(lex_le(from, c[j].0) && lex_lt(c[j].0, to)));
}

/// First position whose key is at least `key`; all earlier keys are below it.
fn find_at_least(entries: &Vec<(Vec<u8>, Vec<u8>)>, key: &[u8]) -> (i: usize)
    requires
        sorted_asc(pairs_view(entries@)),
    ensures
        i <= entries@.len(),
        forall|j: int| 0 <= j < i ==> lex_lt(#[trigger] pairs_view(entries@)[j].0, key@),
        i < entries@.len() ==> !lex_lt(pairs_view(entries@)[i as int].0, key@),
{
    let mut i: usize = 0;
    while i < entries.len() && bytes_lt(entries[i].0.as_slice(), key)
        invariant
            i <= entries@.len(),
            forall|j: int| 0 <= j < i ==> lex_lt(#[trigger] pairs_view(entries@)[j].0, key@),
        decreases entries@.len() - i,
    {
        i = i + 1;
    }
    i
}

/// First position whose key is strictly above `key`; all earlier keys are
/// at or below it.
fn find_above(entries: &Vec<(Vec<u8>, Vec<u8>)>, key: &[u8]) -> (i: usize)
    requires
        sorted_asc(pairs_view(entries@)),
    ensures
        i <= entries@.len(),
        forall|j: int| 0 <= j < i ==> lex_le(#[trigger] pairs_view(entries@)[j].0, key@),
        i < entries@.len() ==> lex_lt(key@, pairs_view(entries@)[i as int].0),
{
    let mut i: usize = 0;
    while i < entries.len() && !bytes_lt(key, entries[i].0.as_slice())
        invariant
            i <= entries@.len(),
            forall|j: int| 0 <= j < i ==> lex_le(#[trigger] pairs_view(entries@)[j].0, key@),
        decreases entries@.len() - i,
    {
        proof {
            lemma_lex_le_not_lt(pairs_view(entries@)[i as int].0, key@);
        }
        i = i + 1;
    }
    i
}

} // verus!
