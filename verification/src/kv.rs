use vstd::prelude::*;

use crate::codec::{
    decode_index, enc_snapshot, encodable, encode_index, lemma_parse_enc_snapshot, parse_snapshot,
};
use crate::entry::Entry;
use crate::error::Error;
use crate::index::{
    lemma_map_of_contains, lemma_map_of_index, remove_key, unique_keys, Bindings, Index,
};
use crate::logfile::LogFile;
use vstd::string::{StrSliceExecFns, StringExecFns};
use vstd::utf8::{decode_utf8, encode_utf8, encode_utf8_decode_utf8, encode_utf8_valid_utf8, valid_utf8};

verus! {

/// Log size past which a `set` triggers compaction, unless reconfigured.
pub const DEFAULT_COMPACT_THRESHOLD: u64 = 512 * 1024;

/// The byte range of the log an entry points at.
pub open spec fn range_of(log: Seq<u8>, e: Entry) -> Seq<u8> {
    log.subrange(e.position as int, e.end())
}

/// The bindings' ranges sit inside `[0, hi)`, in position order and
/// pairwise disjoint: each binding ends at or before the next one starts,
/// and the last ends at or before `hi`.
pub open spec fn layout_ok(l: Bindings, hi: int) -> bool
    decreases l.len(),
{
    if l.len() == 0 {
        true
    } else {
        layout_ok(l.drop_last(), l.last().1.position as int) && l.last().1.end() <= hi
    }
}

/// The sum of the live values' byte lengths.
pub open spec fn live_size(l: Bindings) -> int
    decreases l.len(),
{
    if l.len() == 0 {
        0
    } else {
        live_size(l.drop_last()) + l.last().1.offset
    }
}

/// Every binding's range decodes as text.
pub open spec fn ranges_utf8(log: Seq<u8>, l: Bindings) -> bool {
    forall|i: int| 0 <= i < l.len() ==> valid_utf8(range_of(log, (#[trigger] l[i]).1))
}

pub proof fn lemma_layout_mono(l: Bindings, a: int, b: int)
    requires
        layout_ok(l, a),
        a <= b,
    ensures
        layout_ok(l, b),
{
}

/// Under a valid layout, every binding's range ends inside the log.
pub proof fn lemma_layout_in_bounds(l: Bindings, hi: int)
    requires
        layout_ok(l, hi),
    ensures
        forall|i: int| 0 <= i < l.len() ==> (#[trigger] l[i]).1.end() <= hi,
    decreases l.len(),
{
    if l.len() > 0 {
        let last = l.last();
        lemma_layout_in_bounds(l.drop_last(), last.1.position as int);
        assert forall|i: int| 0 <= i < l.len() implies (#[trigger] l[i]).1.end() <= hi by {
            if i < l.len() - 1 {
                assert(l.drop_last()[i] == l[i]);
                assert(l[i].1.end() <= last.1.position as int);
            }
        }
    }
}

/// Under a valid layout, consecutive bindings do not overlap.
pub proof fn lemma_layout_adjacent(l: Bindings, hi: int)
    requires
        layout_ok(l, hi),
    ensures
        forall|i: int| 0 <= i < l.len() - 1 ==> (#[trigger] l[i]).1.end() <= l[i + 1].1.position,
    decreases l.len(),
{
    if l.len() > 1 {
        let m = l.drop_last();
        lemma_layout_adjacent(m, l.last().1.position as int);
        lemma_layout_in_bounds(m, l.last().1.position as int);
        assert forall|i: int|
            0 <= i < l.len() - 1 implies (#[trigger] l[i]).1.end() <= l[i + 1].1.position by {
            if i < l.len() - 2 {
                assert(m[i] == l[i] && m[i + 1] == l[i + 1]);
            } else {
                assert(m[i] == l[i]);
                assert(m[i].1.end() <= l.last().1.position as int);
            }
        }
    }
}

pub proof fn lemma_live_size_nonneg(l: Bindings)
    ensures
        live_size(l) >= 0,
    decreases l.len(),
{
    if l.len() > 0 {
        lemma_live_size_nonneg(l.drop_last());
    }
}

/// Disjoint in-bounds ranges cannot sum past the log's length.
pub proof fn lemma_live_size_le(l: Bindings, hi: int)
    requires
        layout_ok(l, hi),
        hi >= 0,
    ensures
        live_size(l) <= hi,
    decreases l.len(),
{
    if l.len() > 0 {
        let last = l.last();
        lemma_live_size_le(l.drop_last(), last.1.position as int);
    }
}

/// Equal value lengths, binding by binding, give an equal total.
pub proof fn lemma_live_size_pointwise(a: Bindings, b: Bindings)
    requires
        a.len() == b.len(),
        forall|i: int| 0 <= i < a.len() ==> (#[trigger] a[i]).1.offset == b[i].1.offset,
    ensures
        live_size(a) == live_size(b),
    decreases a.len(),
{
    if a.len() > 0 {
        assert(forall|i: int|
            0 <= i < a.drop_last().len() ==> (#[trigger] a.drop_last()[i]).1.offset
                == b.drop_last()[i].1.offset);
        lemma_live_size_pointwise(a.drop_last(), b.drop_last());
    }
}

/// A prefix of the bindings sums to no more than the whole.
pub proof fn lemma_live_size_take(l: Bindings, i: int)
    requires
        0 <= i <= l.len(),
    ensures
        live_size(l.take(i)) <= live_size(l),
    decreases l.len(),
{
    if i == l.len() {
        assert(l.take(i) =~= l);
    } else {
        assert(l.take(i) =~= l.drop_last().take(i));
        lemma_live_size_take(l.drop_last(), i);
    }
}

/// Dropping a key keeps the layout valid.
pub proof fn lemma_layout_remove_key(l: Bindings, k: Seq<char>, hi: int)
    requires
        layout_ok(l, hi),
    ensures
        layout_ok(remove_key(l, k), hi),
    decreases l.len(),
{
    if l.len() > 0 {
        let last = l.last();
        lemma_layout_remove_key(l.drop_last(), k, last.1.position as int);
        if last.0 == k {
            lemma_layout_mono(remove_key(l.drop_last(), k), last.1.position as int, hi);
        } else {
            let r = remove_key(l.drop_last(), k).push(last);
            assert(r.drop_last() =~= remove_key(l.drop_last(), k));
            assert(r.last() == last);
        }
    }
}

/// The live mapping a log and an index together hold: each live key's
/// value is the text its range of the log spells.
pub open spec fn view_of(log: Seq<u8>, m: Map<Seq<char>, Entry>) -> Map<Seq<char>, Seq<char>> {
    Map::new(|k: Seq<char>| m.contains_key(k), |k: Seq<char>| decode_utf8(range_of(log, m[k])))
}

/// Log, index and layout agree: keys unique, ranges laid out inside the
/// log, every range valid text.
pub open spec fn wf_parts(log: Seq<u8>, idx: Index) -> bool {
    &&& idx.wf()
    &&& layout_ok(idx.model(), log.len() as int)
    &&& forall|k: Seq<char>| #[trigger] idx@.contains_key(k) ==> valid_utf8(range_of(log, idx@[k]))
}

/// The store: the sole owner of the log, the index and the storage
/// directory path for its lifetime. Created by `open` (or fresh by
/// `new`), mutated by `set`/`remove`/`compact`, released by `close`.
pub struct KvStore {
    /// The append-only value log.
    pub log: LogFile,
    /// The live-key index into `log`.
    pub index: Index,
    /// The storage directory this store stands for.
    pub path: String,
    /// Log size past which `set` triggers compaction.
    pub threshold: u64,
    /// How many compactions have run.
    pub compactions: u64,
}

impl View for KvStore {
    type V = Map<Seq<char>, Seq<char>>;

    open spec fn view(&self) -> Map<Seq<char>, Seq<char>> {
        view_of(self.log@, self.index@)
    }
}

impl KvStore {
    /// The store's internal invariant.
    pub open spec fn wf(self) -> bool {
        wf_parts(self.log@, self.index)
    }

    /// A fresh, empty store rooted at `path`.
    pub fn new(path: String) -> (s: KvStore)
        ensures
            s.wf(),
            s@ == Map::<Seq<char>, Seq<char>>::empty(),
            s.path@ == path@,
            s.log@.len() == 0,
            s.threshold == DEFAULT_COMPACT_THRESHOLD,
            s.compactions == 0,
    {
        let s = KvStore {
            log: LogFile::empty(),
            index: Index::new(),
            path,
            threshold: DEFAULT_COMPACT_THRESHOLD,
            compactions: 0,
        };
        proof {
            assert(s@ =~= Map::<Seq<char>, Seq<char>>::empty());
        }
        s
    }

    /// Append the value to the log, then point the index at it; the old
    /// binding, if any, becomes reclaimable garbage. A set that leaves
    /// the log within the threshold appends exactly the value's bytes
    /// and moves no other pointer; one that grows it past the threshold
    /// compacts afterwards, leaving the log at exactly the live size.
    pub fn set(&mut self, key: String, val: String) -> (r: Result<(), Error>)
        requires
            old(self).wf(),
            old(self).log@.len() + encode_utf8(val@).len() <= usize::MAX,
        ensures
            final(self).wf(),
            r is Ok,
            final(self)@ == old(self)@.insert(key@, val@),
            final(self).log@.len() <= old(self).log@.len() + encode_utf8(val@).len(),
            old(self).log@.len() + encode_utf8(val@).len() <= old(self).threshold ==> ({
                &&& final(self).log@ == old(self).log@ + encode_utf8(val@)
                &&& final(self).index@ == old(self).index@.insert(
                    key@,
                    (Entry {
                        position: old(self).log@.len() as u64,
                        offset: encode_utf8(val@).len() as usize,
                    }),
                )
                &&& final(self).compactions == old(self).compactions
            }),
            old(self).log@.len() + encode_utf8(val@).len() > old(self).threshold ==> ({
                &&& final(self).log@.len() == live_size(final(self).index.model())
                &&& final(self).compactions == (if old(self).compactions < u64::MAX {
                    old(self).compactions + 1
                } else {
                    u64::MAX as int
                })
            }),
            final(self).path == old(self).path,
            final(self).threshold == old(self).threshold,
            final(self).compactions >= old(self).compactions,
    {
        let ghost old_log = self.log@;
        let ghost old_model = self.index.model();
        let ghost old_map = self.index@;
        let vb = val.as_str().as_bytes_vec();
        let e = self.log.append(vb.as_slice());
        proof {
            lemma_layout_in_bounds(old_model, old_log.len() as int);
        }
        self.index.put(key, e);
        proof {
            let m = self.index.model();
            let rk = remove_key(old_model, key@);
            lemma_layout_remove_key(old_model, key@, old_log.len() as int);
            assert(m.drop_last() =~= rk);
            assert(m.last() == (key@, e));
            assert(layout_ok(m, self.log@.len() as int));
            // old entries' ranges are stable under the append
            assert forall|k: Seq<char>|
                #[trigger] old_map.contains_key(k) implies range_of(self.log@, old_map[k])
                == range_of(old_log, old_map[k]) by {
                lemma_map_of_contains(old_model, k);
                let i = choose|i: int| 0 <= i < old_model.len() && old_model[i].0 == k;
                lemma_map_of_index(old_model, i);
                assert(range_of(self.log@, old_map[k]) =~= range_of(old_log, old_map[k]));
            }
            assert(range_of(self.log@, e) =~= vb@);
            encode_utf8_valid_utf8(val@);
            encode_utf8_decode_utf8(val@);
            assert forall|k: Seq<char>|
                #[trigger] self.index@.contains_key(k) implies valid_utf8(
                range_of(self.log@, self.index@[k]),
            ) by {
                if k != key@ {
                    assert(self.index@[k] == old_map[k]);
                }
            }
            assert(self@ =~= old(self)@.insert(key@, val@));
            assert(e == (Entry {
                position: old(self).log@.len() as u64,
                offset: encode_utf8(val@).len() as usize,
            }));
        }
        if self.log.size() as u64 > self.threshold {
            self.compact();
        }
        Ok(())
    }

    /// Look the key up and read its value back through its pointer.
    /// Absent keys read as `None`.
    pub fn get(&mut self, key: String) -> (r: Result<Option<String>, Error>)
        requires
            old(self).wf(),
        ensures
            *final(self) == *old(self),
            r is Ok,
            old(self)@.contains_key(key@) ==> (r matches Ok(v) && v matches Some(s) && s@
                == old(self)@[key@]),
            !old(self)@.contains_key(key@) ==> r == Ok::<Option<String>, Error>(None),
    {
        let e = match self.index.get(&key) {
            None => {
                return Ok(None);
            },
            Some(e) => e,
        };
        proof {
            lemma_map_of_contains(self.index.model(), key@);
            let i = choose|i: int|
                0 <= i < self.index.model().len() && self.index.model()[i].0 == key@;
            lemma_map_of_index(self.index.model(), i);
            lemma_layout_in_bounds(self.index.model(), self.log@.len() as int);
            assert(e.in_bounds(self.log@.len() as int));
        }
        let bytes = match self.log.read(&e) {
            Ok(v) => v,
            Err(err) => {
                proof {
                    assert(false);
                }
                return Err(err);
            },
        };
        match crate::codec::bytes_to_string(bytes) {
            Some(s) => Ok(Some(s)),
            None => {
                proof {
                    assert(false);
                }
                Err(Error::ReadFailure)
            },
        }
    }

    /// Unbind the key; its log bytes stay behind as garbage until the
    /// next compaction. Fails with [`Error::KeyNotFound`] exactly when
    /// the key is not live, and then changes nothing.
    pub fn remove(&mut self, key: String) -> (r: Result<(), Error>)
        requires
            old(self).wf(),
        ensures
            final(self).wf(),
            old(self)@.contains_key(key@) ==> r is Ok && final(self)@ == old(self)@.remove(key@),
            !old(self)@.contains_key(key@) ==> r == Err::<(), Error>(Error::KeyNotFound)
                && *final(self) == *old(self),
            final(self).log == old(self).log,
            final(self).path == old(self).path,
            final(self).threshold == old(self).threshold,
            final(self).compactions == old(self).compactions,
    {
        let ghost old_model = self.index.model();
        let present = self.index.remove(&key);
        if !present {
            return Err(Error::KeyNotFound);
        }
        proof {
            lemma_layout_remove_key(old_model, key@, self.log@.len() as int);
            assert forall|k: Seq<char>|
                #[trigger] self.index@.contains_key(k) implies valid_utf8(
                range_of(self.log@, self.index@[k]),
            ) by {
                assert(old(self).index@.contains_key(k));
                assert(self.index@[k] == old(self).index@[k]);
            }
            assert(self@ =~= old(self)@.remove(key@));
        }
        Ok(())
    }

    /// The copy phase of compaction: build, from the current store, a
    /// fresh log holding exactly the live values and an index pointing
    /// into it, live key by live key. Only reads the store: a caller
    /// that abandons the result — say, because persisting it failed —
    /// has changed nothing.
    pub fn rebuilt(&self) -> (r: (LogFile, Index))
        requires
            self.wf(),
        ensures
            wf_parts(r.0@, r.1),
            view_of(r.0@, r.1@) == self@,
            forall|k: Seq<char>| #[trigger] r.1@.contains_key(k) ==> range_of(r.0@, r.1@[k])
                == range_of(self.log@, self.index@[k]),
            r.0@.len() == live_size(r.1.model()),
            live_size(r.1.model()) == live_size(self.index.model()),
            r.1.model().len() == self.index.model().len(),
    {
        let ghost src = self.index.model();
        let n = self.index.pairs.len();
        let mut nl = LogFile::empty();
        let mut ni = Index::new();
        let log_total = self.log.size();
        let mut i: usize = 0;
        while i < n
            invariant
                0 <= i <= n,
                n == self.index.pairs@.len(),
                log_total == self.log@.len(),
                src == self.index.model(),
                self.wf(),
                ni.wf(),
                ni.model().len() == i,
                forall|j: int| 0 <= j < i ==> (#[trigger] ni.model()[j]).0 == src[j].0,
                forall|j: int| 0 <= j < i ==> (#[trigger] ni.model()[j]).1.offset
                    == src[j].1.offset,
                forall|j: int|
                    0 <= j < i ==> range_of(nl@, (#[trigger] ni.model()[j]).1) == range_of(
                        self.log@,
                        src[j].1,
                    ),
                layout_ok(ni.model(), nl@.len() as int),
                nl@.len() == live_size(src.take(i as int)),
                live_size(ni.model()) == live_size(src.take(i as int)),
            decreases n - i,
        {
            let ghost pre_model = ni.model();
            let ghost pre_log = nl@;
            let p = &self.index.pairs[i];
            proof {
                assert(src[i as int].1 == p.1);
                lemma_layout_in_bounds(src, self.log@.len() as int);
                assert(src[i as int].1.end() <= self.log@.len());
                lemma_live_size_take(src, i + 1);
                assert(src.take(i + 1).drop_last() =~= src.take(i as int));
                assert(src.take(i + 1).last() == src[i as int]);
                lemma_live_size_le(src, self.log@.len() as int);
            }
            let bytes = match self.log.read(&p.1) {
                Ok(v) => v,
                Err(_) => {
                    proof {
                        assert(false);
                    }
                    return (nl, ni);
                },
            };
            let e2 = nl.append(bytes.as_slice());
            proof {
                let cur_key = src[i as int].0;
                assert forall|j: int| 0 <= j < i implies (#[trigger] pre_model[j]).0 != cur_key by {
                    assert(src[j].0 != src[i as int].0);
                }
                crate::index::lemma_remove_key_id(pre_model, src[i as int].0);
            }
            ni.put(p.0.clone(), e2);
            proof {
                assert(ni.model() =~= pre_model.push((src[i as int].0, e2)));
                assert(ni.model().drop_last() =~= pre_model);
                assert(ni.model().last() == (src[i as int].0, e2));
                assert(layout_ok(ni.model(), nl@.len() as int));
                assert forall|j: int|
                    0 <= j < i + 1 implies range_of(nl@, (#[trigger] ni.model()[j]).1)
                    == range_of(self.log@, src[j].1) by {
                    if j < i {
                        assert(ni.model()[j] == pre_model[j]);
                        lemma_layout_in_bounds(pre_model, pre_log.len() as int);
                        assert(range_of(nl@, pre_model[j].1) =~= range_of(
                            pre_log,
                            pre_model[j].1,
                        ));
                    } else {
                        assert(range_of(nl@, e2) =~= bytes@);
                    }
                }
                assert(live_size(ni.model()) == live_size(src.take(i + 1)));
            }
            i += 1;
        }
        proof {
            assert(src.take(n as int) =~= src);
            let nm = ni.model();
            assert forall|k: Seq<char>| #[trigger]
                ni@.contains_key(k) == self.index@.contains_key(k) by {
                lemma_map_of_contains(nm, k);
                lemma_map_of_contains(src, k);
                if exists|j: int| 0 <= j < nm.len() && nm[j].0 == k {
                    let j = choose|j: int| 0 <= j < nm.len() && nm[j].0 == k;
                    assert(src[j].0 == k);
                }
                if exists|j: int| 0 <= j < src.len() && src[j].0 == k {
                    let j = choose|j: int| 0 <= j < src.len() && src[j].0 == k;
                    assert(nm[j].0 == k);
                }
            }
            assert forall|k: Seq<char>| #[trigger] ni@.contains_key(k) implies valid_utf8(
                range_of(nl@, ni@[k]),
            ) && range_of(nl@, ni@[k]) == range_of(self.log@, self.index@[k]) by {
                lemma_map_of_contains(nm, k);
                let j = choose|j: int| 0 <= j < nm.len() && nm[j].0 == k;
                lemma_map_of_index(nm, j);
                lemma_map_of_index(src, j);
                assert(ni@[k] == nm[j].1);
                assert(self.index@[k] == src[j].1);
                assert(self.index@.contains_key(k));
            }
            assert(view_of(nl@, ni@) =~= self@);
            lemma_live_size_pointwise(nm, src);
        }
        (nl, ni)
    }

    /// Reclaim the space of overwritten and removed values: rewrite the
    /// log to hold exactly the live values and swap in the rebuilt
    /// index, as one in-memory step after the copy phase has fully
    /// succeeded. The live mapping is unchanged; the log ends at exactly
    /// the sum of the live values' lengths, no larger than it began.
    pub fn compact(&mut self)
        requires
            old(self).wf(),
        ensures
            final(self).wf(),
            final(self)@ == old(self)@,
            forall|k: Seq<char>| #[trigger] final(self).index@.contains_key(k) ==> range_of(
                final(self).log@,
                final(self).index@[k],
            ) == range_of(old(self).log@, old(self).index@[k]),
            final(self).log@.len() == live_size(final(self).index.model()),
            final(self).log@.len() <= old(self).log@.len(),
            final(self).index.model().len() == old(self).index.model().len(),
            final(self).path == old(self).path,
            final(self).threshold == old(self).threshold,
            final(self).compactions == (if old(self).compactions < u64::MAX {
                old(self).compactions + 1
            } else {
                u64::MAX as int
            }),
    {
        proof {
            lemma_live_size_le(old(self).index.model(), old(self).log@.len() as int);
            lemma_live_size_nonneg(old(self).index.model());
        }
        let (nl, ni) = self.rebuilt();
        self.log = nl;
        self.index = ni;
        if self.compactions < u64::MAX {
            self.compactions = self.compactions + 1;
        }
    }

    /// The persisted form of the store: the log's bytes and the index
    /// snapshot's text, as they are to be written to the two files.
    pub fn snapshot(&self) -> (r: (Vec<u8>, Vec<u8>))
        requires
            self.wf(),
        ensures
            r.0@ == self.log@,
            r.1@ == enc_snapshot(self.index.model()),
            parse_snapshot(r.1@) == Some(self.index.model()),
    {
        let log_bytes = vstd::slice::slice_to_vec(self.log.bytes().as_slice());
        let snap = encode_index(&self.index);
        proof {
            lemma_parse_enc_snapshot(self.index.model());
        }
        (log_bytes, snap)
    }

    /// Persist and close: consume the store and hand back both files'
    /// final contents. This is the one exit from the Open state; its
    /// result is there to be checked, in place of destructor-time
    /// persistence that could hide a failure.
    pub fn close(self) -> (r: (Vec<u8>, Vec<u8>))
        requires
            self.wf(),
        ensures
            r.0@ == self.log@,
            r.1@ == enc_snapshot(self.index.model()),
            parse_snapshot(r.1@) == Some(self.index.model()),
    {
        self.snapshot()
    }

    /// Open a store rooted at `path` from the two files' contents: the
    /// log's raw bytes and the index snapshot's text. An absent snapshot
    /// file reads as empty, which is the empty index. Succeeds exactly
    /// when the snapshot parses, binds no key twice, and lays its
    /// pointers out inside the log in position order with disjoint
    /// ranges, each range valid text; the restored mapping is then the
    /// one the snapshot records. The position ordering is part of the
    /// snapshot format — the library always writes records so — and a
    /// snapshot that breaks it is rejected as corrupt, like any other
    /// malformed one.
    pub fn open(path: String, log_bytes: Vec<u8>, snapshot_bytes: Vec<u8>) -> (r: Result<
        KvStore,
        Error,
    >)
        ensures
            r is Ok <==> (parse_snapshot(snapshot_bytes@) matches Some(l) && unique_keys(l)
                && layout_ok(l, log_bytes@.len() as int) && ranges_utf8(log_bytes@, l)),
            r matches Ok(s) ==> parse_snapshot(snapshot_bytes@) == Some(s.index.model()) && s.wf()
                && s.log@ == log_bytes@ && s.path@ == path@ && s@ == view_of(
                log_bytes@,
                s.index@,
            ) && s.threshold == DEFAULT_COMPACT_THRESHOLD && s.compactions == 0,
            r is Err ==> r == Err::<KvStore, Error>(Error::CorruptIndex),
    {
        let idx = match decode_index(snapshot_bytes.as_slice()) {
            Ok(idx) => idx,
            Err(_) => {
                return Err(Error::CorruptIndex);
            },
        };
        let ghost l = idx.model();
        let log = LogFile::from_bytes(log_bytes);
        let log_len = log.size();
        let n = idx.pairs.len();
        let mut prev_end: u64 = 0;
        let mut i: usize = 0;
        while i < n
            invariant
                0 <= i <= n,
                n == idx.pairs@.len(),
                l == idx.model(),
                idx.wf(),
                parse_snapshot(snapshot_bytes@) == Some(l),
                log_len == log@.len(),
                log@ == log_bytes@,
                prev_end <= log_len as u64,
                i == 0 ==> prev_end == 0,
                i > 0 ==> prev_end == l[i - 1].1.end(),
                layout_ok(l.take(i as int), prev_end as int),
                forall|j: int| 0 <= j < i ==> valid_utf8(range_of(log@, (#[trigger] l[j]).1)),
            decreases n - i,
        {
            let p = &idx.pairs[i];
            let e = p.1;
            proof {
                assert(l[i as int].1 == e);
                assert(l.take(i + 1).drop_last() =~= l.take(i as int));
                assert(l.take(i + 1).last() == l[i as int]);
            }
            if e.position < prev_end {
                proof {
                    assert(i > 0);
                    if layout_ok(l, log_bytes@.len() as int) {
                        lemma_layout_adjacent(l, log_bytes@.len() as int);
                        assert(l[i - 1].1.end() <= l[i as int].1.position);
                        assert(false);
                    }
                }
                return Err(Error::CorruptIndex);
            }
            if e.offset as u64 > u64::MAX - e.position {
                proof {
                    if layout_ok(l, log_bytes@.len() as int) {
                        lemma_layout_in_bounds(l, log_bytes@.len() as int);
                        assert(l[i as int].1.end() <= log_bytes@.len());
                        assert(false);
                    }
                }
                return Err(Error::CorruptIndex);
            }
            let end = e.position + e.offset as u64;
            if end > log_len as u64 {
                proof {
                    if layout_ok(l, log_bytes@.len() as int) {
                        lemma_layout_in_bounds(l, log_bytes@.len() as int);
                        assert(l[i as int].1.end() <= log_bytes@.len());
                        assert(false);
                    }
                }
                return Err(Error::CorruptIndex);
            }
            let bytes = match log.read(&e) {
                Ok(v) => v,
                Err(_) => {
                    proof {
                        assert(false);
                    }
                    return Err(Error::CorruptIndex);
                },
            };
            match crate::codec::bytes_to_string(bytes) {
                Some(_) => {},
                None => {
                    proof {
                        assert(!valid_utf8(range_of(log@, l[i as int].1)));
                    }
                    return Err(Error::CorruptIndex);
                },
            }
            proof {
                lemma_layout_mono(l.take(i as int), prev_end as int, e.position as int);
                assert(layout_ok(l.take(i + 1), end as int));
            }
            prev_end = end;
            i += 1;
        }
        proof {
            assert(l.take(n as int) =~= l);
            lemma_layout_mono(l, prev_end as int, log_len as int);
            assert forall|k: Seq<char>| #[trigger] idx@.contains_key(k) implies valid_utf8(
                range_of(log@, idx@[k]),
            ) by {
                lemma_map_of_contains(l, k);
                let j = choose|j: int| 0 <= j < l.len() && l[j].0 == k;
                lemma_map_of_index(l, j);
            }
        }
        Ok(KvStore { log, index: idx, path, threshold: DEFAULT_COMPACT_THRESHOLD, compactions: 0 })
    }

    /// Whether every key live in `self` is also live in `other`, bound
    /// to an equal value.
    pub fn compare(&mut self, other: &mut Self) -> (r: bool)
        requires
            old(self).wf(),
            old(other).wf(),
        ensures
            *final(self) == *old(self),
            *final(other) == *old(other),
            r == (forall|k: Seq<char>| #[trigger] old(self)@.contains_key(k)
                ==> old(other)@.contains_key(k) && old(other)@[k] == old(self)@[k]),
    {
        let n = self.index.pairs.len();
        let mut i: usize = 0;
        while i < n
            invariant
                0 <= i <= n,
                *self == *old(self),
                *other == *old(other),
                n == self.index.pairs@.len(),
                self.wf(),
                other.wf(),
                forall|j: int|
                    0 <= j < i ==> other@.contains_key((#[trigger] self.index.model()[j]).0)
                        && other@[self.index.model()[j].0] == self@[self.index.model()[j].0],
            decreases n - i,
        {
            let key = self.index.pairs[i].0.clone();
            proof {
                lemma_map_of_index(self.index.model(), i as int);
            }
            let mine = match self.get(key.clone()) {
                Ok(Some(s)) => s,
                _ => {
                    proof {
                        assert(false);
                    }
                    return false;
                },
            };
            let theirs_opt = match other.get(key.clone()) {
                Ok(v) => v,
                Err(_) => {
                    proof {
                        assert(false);
                    }
                    return false;
                },
            };
            let theirs = match theirs_opt {
                Some(s) => s,
                None => {
                    proof {
                        assert(self@.contains_key(key@));
                        assert(!other@.contains_key(key@));
                    }
                    return false;
                },
            };
            if !(mine == theirs) {
                proof {
                    assert(self@.contains_key(key@));
                    assert(other@[key@] != self@[key@]);
                }
                return false;
            }
            i += 1;
        }
        proof {
            assert forall|k: Seq<char>| #[trigger] self@.contains_key(k) implies other@
                .contains_key(k) && other@[k] == self@[k] by {
                lemma_map_of_contains(self.index.model(), k);
                let j = choose|j: int|
                    0 <= j < self.index.model().len() && self.index.model()[j].0 == k;
                assert(self.index.model()[j].0 == k);
            }
        }
        true
    }

    /// The log data file's path under the storage directory.
    pub fn get_db_path(&self) -> (r: String)
        ensures
            r@ == self.path@ + "/"@ + "db.db"@,
    {
        let mut p = self.path.clone();
        p.append("/");
        p.append("db.db");
        p
    }

    /// The index snapshot file's path under the storage directory.
    pub fn get_index_path(&self) -> (r: String)
        ensures
            r@ == self.path@ + "/"@ + "index.db"@,
    {
        let mut p = self.path.clone();
        p.append("/");
        p.append("index.db");
        p
    }

    /// Reconfigure the compaction trigger: a policy knob, not a
    /// correctness requirement.
    pub fn set_threshold(&mut self, threshold: u64)
        ensures
            final(self).threshold == threshold,
            final(self).log == old(self).log,
            final(self).index == old(self).index,
            final(self).path == old(self).path,
            final(self).compactions == old(self).compactions,
            old(self).wf() ==> final(self).wf(),
            final(self)@ == old(self)@,
    {
        self.threshold = threshold;
    }
}

/// Looking a key up right after setting it sees exactly the value set —
/// the newest binding wins — and no other key's value moves.
pub proof fn lemma_set_then_get(
    m: Map<Seq<char>, Seq<char>>,
    k: Seq<char>,
    v: Seq<char>,
    k2: Seq<char>,
)
    ensures
        m.insert(k, v).contains_key(k),
        m.insert(k, v)[k] == v,
        k2 != k ==> m.insert(k, v).contains_key(k2) == m.contains_key(k2),
        k2 != k && m.contains_key(k2) ==> m.insert(k, v)[k2] == m[k2],
{
}

/// A removed key reads as absent afterwards, and no other key moves.
pub proof fn lemma_remove_then_get(m: Map<Seq<char>, Seq<char>>, k: Seq<char>, k2: Seq<char>)
    ensures
        !m.remove(k).contains_key(k),
        k2 != k ==> m.remove(k).contains_key(k2) == m.contains_key(k2),
        k2 != k && m.contains_key(k2) ==> m.remove(k)[k2] == m[k2],
{
}

/// Reopening a store from the files `close` hands back restores exactly
/// the live mapping: every live key returns its last-set value across a
/// restart. The bound on key lengths is what lets every key fit its
/// snapshot field; every store built by this library satisfies it.
pub proof fn lemma_close_then_open(s: KvStore)
    requires
        s.wf(),
        encodable(s.index.model()),
    ensures
        parse_snapshot(enc_snapshot(s.index.model())) == Some(s.index.model()),
        unique_keys(s.index.model()),
        layout_ok(s.index.model(), s.log@.len() as int),
        ranges_utf8(s.log@, s.index.model()),
{
    lemma_parse_enc_snapshot(s.index.model());
    let l = s.index.model();
    assert forall|i: int| 0 <= i < l.len() implies valid_utf8(
        range_of(s.log@, (#[trigger] l[i]).1),
    ) by {
        lemma_map_of_index(l, i);
        assert(s.index@.contains_key(l[i].0));
        assert(s.index@[l[i].0] == l[i].1);
    }
}

} // verus!
