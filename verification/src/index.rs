use vstd::prelude::*;

use crate::entry::Entry;

verus! {

/// One live binding: a key and the pointer to its current value.
pub type Binding = (String, Entry);

/// The ghost form of a binding list, each key as its character sequence.
pub type Bindings = Seq<(Seq<char>, Entry)>;

/// The mapping a binding list denotes; a later binding for a key wins.
pub open spec fn map_of(l: Bindings) -> Map<Seq<char>, Entry>
    decreases l.len(),
{
    if l.len() == 0 {
        Map::empty()
    } else {
        map_of(l.drop_last()).insert(l.last().0, l.last().1)
    }
}

/// No key occurs twice.
pub open spec fn unique_keys(l: Bindings) -> bool {
    forall|i: int, j: int| 0 <= i < j < l.len() ==> l[i].0 != l[j].0
}

/// `l` with every binding for `k` dropped, order otherwise kept.
pub open spec fn remove_key(l: Bindings, k: Seq<char>) -> Bindings
    decreases l.len(),
{
    if l.len() == 0 {
        Seq::empty()
    } else if l.last().0 == k {
        remove_key(l.drop_last(), k)
    } else {
        remove_key(l.drop_last(), k).push(l.last())
    }
}

/// A key is in the denoted map exactly when some binding carries it.
pub proof fn lemma_map_of_contains(l: Bindings, k: Seq<char>)
    ensures
        map_of(l).contains_key(k) <==> exists|i: int| 0 <= i < l.len() && l[i].0 == k,
    decreases l.len(),
{
    if l.len() > 0 {
        lemma_map_of_contains(l.drop_last(), k);
        if l.last().0 == k {
            assert(l[l.len() - 1].0 == k);
        } else {
            if map_of(l).contains_key(k) {
                let i = choose|i: int| 0 <= i < l.drop_last().len() && l.drop_last()[i].0 == k;
                assert(l[i].0 == k);
            }
            if exists|i: int| 0 <= i < l.len() && l[i].0 == k {
                let i = choose|i: int| 0 <= i < l.len() && l[i].0 == k;
                assert(l.drop_last()[i].0 == k);
            }
        }
    }
}

/// With unique keys, the map sends each bound key to its binding's entry.
pub proof fn lemma_map_of_index(l: Bindings, i: int)
    requires
        unique_keys(l),
        0 <= i < l.len(),
    ensures
        map_of(l).contains_key(l[i].0),
        map_of(l)[l[i].0] == l[i].1,
    decreases l.len(),
{
    if i < l.len() - 1 {
        assert(unique_keys(l.drop_last()));
        lemma_map_of_index(l.drop_last(), i);
        assert(l.drop_last()[i] == l[i]);
        assert(l[i].0 != l.last().0);
    }
}

/// Dropping a key's bindings removes exactly that key from the map.
pub proof fn lemma_map_of_remove_key(l: Bindings, k: Seq<char>)
    ensures
        map_of(remove_key(l, k)) == map_of(l).remove(k),
    decreases l.len(),
{
    if l.len() == 0 {
        assert(map_of(remove_key(l, k)) =~= map_of(l).remove(k));
    } else {
        lemma_map_of_remove_key(l.drop_last(), k);
        if l.last().0 == k {
            assert(map_of(l).remove(k) =~= map_of(l.drop_last()).remove(k));
        } else {
            assert(remove_key(l, k) == remove_key(l.drop_last(), k).push(l.last()));
            assert(remove_key(l, k).drop_last() =~= remove_key(l.drop_last(), k));
            assert(remove_key(l, k).last() == l.last());
            assert(map_of(remove_key(l, k)) == map_of(remove_key(l.drop_last(), k)).insert(
                l.last().0,
                l.last().1,
            ));
            assert(map_of(l).remove(k) =~= map_of(l.drop_last()).remove(k).insert(
                l.last().0,
                l.last().1,
            ));
        }
    }
}

/// No binding for `k` survives `remove_key`, and the list never grows.
pub proof fn lemma_remove_key_no_k(l: Bindings, k: Seq<char>)
    ensures
        forall|i: int| 0 <= i < remove_key(l, k).len() ==> remove_key(l, k)[i].0 != k,
        remove_key(l, k).len() <= l.len(),
    decreases l.len(),
{
    if l.len() > 0 {
        lemma_remove_key_no_k(l.drop_last(), k);
    }
}

/// `remove_key` keeps keys unique.
pub proof fn lemma_remove_key_unique(l: Bindings, k: Seq<char>)
    requires
        unique_keys(l),
    ensures
        unique_keys(remove_key(l, k)),
    decreases l.len(),
{
    if l.len() > 0 {
        let m = l.drop_last();
        let x = l.last();
        assert(unique_keys(m));
        lemma_remove_key_unique(m, k);
        if x.0 != k {
            let r = remove_key(m, k);
            assert forall|i: int| 0 <= i < r.len() implies r[i].0 != x.0 by {
                if r[i].0 == x.0 {
                    lemma_map_of_contains(r, x.0);
                    lemma_map_of_remove_key(m, k);
                    lemma_map_of_contains(m, x.0);
                    let j = choose|j: int| 0 <= j < m.len() && m[j].0 == x.0;
                    assert(l[j].0 == l[l.len() - 1].0);
                }
            }
            assert(unique_keys(r.push(x)));
        }
    }
}

/// The ghost binding list a vector of bindings stands for.
pub open spec fn model_of(ps: Seq<Binding>) -> Bindings {
    Seq::new(ps.len(), |i: int| (ps[i].0@, ps[i].1))
}

/// The in-memory index: the authoritative record of which keys are live
/// and where in the log each one's current value sits. Keys are unique;
/// presence means "currently live".
pub struct Index {
    /// The live bindings, oldest first.
    pub pairs: Vec<Binding>,
}

impl View for Index {
    type V = Map<Seq<char>, Entry>;

    open spec fn view(&self) -> Map<Seq<char>, Entry> {
        map_of(self.model())
    }
}

impl Index {
    /// The ghost binding list.
    pub open spec fn model(&self) -> Bindings {
        model_of(self.pairs@)
    }

    /// Keys are unique: the index is a mapping.
    pub open spec fn wf(&self) -> bool {
        unique_keys(self.model())
    }

    /// An empty index.
    pub fn new() -> (idx: Index)
        ensures
            idx.wf(),
            idx.model() == Seq::<(Seq<char>, Entry)>::empty(),
            idx@ == Map::<Seq<char>, Entry>::empty(),
    {
        Index { pairs: Vec::new() }
    }

    /// How many keys are live.
    pub fn len(&self) -> (n: usize)
        ensures
            n == self.model().len(),
    {
        self.pairs.len()
    }

    /// The pointer currently bound to `key`, if the key is live.
    pub fn get(&self, key: &String) -> (r: Option<Entry>)
        requires
            self.wf(),
        ensures
            self@.contains_key(key@) ==> r == Some(self@[key@]),
            !self@.contains_key(key@) ==> r is None,
    {
        let n = self.pairs.len();
        let mut i: usize = 0;
        while i < n
            invariant
                0 <= i <= n,
                n == self.pairs@.len(),
                self.wf(),
                forall|j: int| 0 <= j < i ==> self.model()[j].0 != key@,
            decreases n - i,
        {
            let p = &self.pairs[i];
            if p.0 == *key {
                proof {
                    lemma_map_of_index(self.model(), i as int);
                }
                return Some(p.1);
            }
            i += 1;
        }
        proof {
            lemma_map_of_contains(self.model(), key@);
        }
        None
    }

    /// Insert or overwrite: bind `key` to `e`, dropping any old binding.
    pub fn put(&mut self, key: String, e: Entry)
        requires
            old(self).wf(),
        ensures
            final(self).wf(),
            final(self).model() == remove_key(old(self).model(), key@).push((key@, e)),
            final(self)@ == old(self)@.insert(key@, e),
    {
        proof {
            lemma_remove_key_unique(old(self).model(), key@);
            lemma_remove_key_no_k(old(self).model(), key@);
            lemma_map_of_remove_key(old(self).model(), key@);
        }
        self.remove(&key);
        let ghost removed = self.model();
        self.pairs.push((key, e));
        proof {
            assert(self.model() =~= removed.push((key@, e)));
            assert(self.model().drop_last() =~= removed);
            assert(forall|i: int| 0 <= i < removed.len() ==> removed[i].0 != key@);
            assert(unique_keys(self.model()));
            assert(self@ =~= old(self)@.insert(key@, e));
        }
    }

    /// Unbind `key`; reports whether it was live. The index is unchanged
    /// when the key was absent.
    pub fn remove(&mut self, key: &String) -> (r: bool)
        requires
            old(self).wf(),
        ensures
            final(self).wf(),
            final(self).model() == remove_key(old(self).model(), key@),
            final(self)@ == old(self)@.remove(key@),
            r == old(self)@.contains_key(key@),
            !r ==> *final(self) == *old(self),
    {
        let n = self.pairs.len();
        let mut found: bool = false;
        let mut i: usize = 0;
        while i < n
            invariant
                0 <= i <= n,
                n == self.pairs@.len(),
                found == exists|j: int| 0 <= j < i && self.model()[j].0 == key@,
            decreases n - i,
        {
            let p = &self.pairs[i];
            if p.0 == *key {
                found = true;
                proof {
                    assert(self.model()[i as int].0 == key@);
                }
                i = n;
            } else {
                i += 1;
            }
        }
        proof {
            lemma_map_of_contains(old(self).model(), key@);
            lemma_map_of_remove_key(old(self).model(), key@);
            lemma_remove_key_unique(old(self).model(), key@);
        }
        if !found {
            proof {
                lemma_remove_key_id(self.model(), key@);
            }
            return false;
        }
        let mut out: Vec<Binding> = Vec::new();
        let mut i: usize = 0;
        while i < n
            invariant
                0 <= i <= n,
                n == self.pairs@.len(),
                model_of(out@) == remove_key(self.model().take(i as int), key@),
            decreases n - i,
        {
            let p = &self.pairs[i];
            let ghost prefix = self.model().take(i as int);
            proof {
                assert(self.model().take(i + 1).drop_last() =~= prefix);
                assert(self.model().take(i + 1).last() == self.model()[i as int]);
            }
            if !(p.0 == *key) {
                let ghost old_out = out@;
                out.push((p.0.clone(), p.1));
                proof {
                    assert(model_of(out@) =~= model_of(old_out).push((p.0@, p.1)));
                }
            }
            i += 1;
        }
        proof {
            assert(self.model().take(n as int) =~= self.model());
        }
        self.pairs = out;
        true
    }

    /// All currently-live keys, one each, in the index's own order; the
    /// order carries no meaning.
    pub fn live_keys(&self) -> (r: Vec<String>)
        ensures
            r@.len() == self.model().len(),
            forall|i: int| 0 <= i < r@.len() ==> r@[i]@ == self.model()[i].0,
    {
        let n = self.pairs.len();
        let mut r: Vec<String> = Vec::new();
        let mut i: usize = 0;
        while i < n
            invariant
                0 <= i <= n,
                n == self.pairs@.len(),
                r@.len() == i,
                forall|j: int| 0 <= j < i ==> r@[j]@ == self.model()[j].0,
            decreases n - i,
        {
            r.push(self.pairs[i].0.clone());
            i += 1;
        }
        r
    }
}

/// Removing an unbound key changes nothing.
pub proof fn lemma_remove_key_id(l: Bindings, k: Seq<char>)
    requires
        forall|i: int| 0 <= i < l.len() ==> l[i].0 != k,
    ensures
        remove_key(l, k) == l,
    decreases l.len(),
{
    if l.len() > 0 {
        assert(l[l.len() - 1].0 != k);
        lemma_remove_key_id(l.drop_last(), k);
        assert(remove_key(l, k) =~= l.drop_last().push(l.last()));
        assert(l.drop_last().push(l.last()) =~= l);
    }
}

} // verus!
