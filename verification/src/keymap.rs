//! Small digest-keyed maps.
//!
//! The position index (digest to array position) and the data store (digest
//! to payload) are kept as association lists whose abstract value is a
//! `Map`.  Both maintain the invariant that no key occurs twice, so lookup,
//! insertion and removal behave exactly like the map operations they are
//! specified with.

use vstd::prelude::*;

verus! {

/// True when `a` and `b` hold the same bytes.
pub fn keys_equal(a: &Vec<u8>, b: &Vec<u8>) -> (r: bool)
    ensures
        r == (a@ == b@),
{
    if a.len() != b.len() {
        assert(a@ != b@);
        return false;
    }
    let mut i: usize = 0;
    while i < a.len()
        invariant
            i <= a@.len(),
            a@.len() == b@.len(),
            forall|j: int| 0 <= j < i ==> a@[j] == b@[j],
        decreases a@.len() - i,
    {
        if a[i] != b[i] {
            assert(a@ != b@);
            return false;
        }
        i = i + 1;
    }
    proof {
        assert(a@ =~= b@);
    }
    true
}

/// A copy of the given bytes.
pub fn clone_bytes(v: &Vec<u8>) -> (r: Vec<u8>)
    ensures
        r@ == v@,
{
    let mut out: Vec<u8> = Vec::new();
    let mut i: usize = 0;
    while i < v.len()
        invariant
            i <= v@.len(),
            out@ == v@.take(i as int),
        decreases v@.len() - i,
    {
        proof {
            assert(v@.take(i + 1) == v@.take(i as int).push(v@[i as int]));
        }
        out.push(v[i]);
        i = i + 1;
    }
    proof {
        assert(v@.take(v@.len() as int) =~= v@);
    }
    out
}

/// The map described by an association list: later entries shadow earlier
/// ones, though under `distinct_keys` no shadowing ever happens.
pub open spec fn assoc_view<V>(s: Seq<(Seq<u8>, V)>) -> Map<Seq<u8>, V>
    decreases s.len(),
{
    if s.len() == 0 {
        Map::empty()
    } else {
        assoc_view(s.drop_last()).insert(s.last().0, s.last().1)
    }
}

/// No key occurs at two positions of the list.
pub open spec fn distinct_keys<V>(s: Seq<(Seq<u8>, V)>) -> bool {
    forall|i: int, j: int| 0 <= i < j < s.len() ==> s[i].0 != s[j].0
}

proof fn lemma_assoc_contains<V>(s: Seq<(Seq<u8>, V)>, k: Seq<u8>)
    ensures
        assoc_view(s).contains_key(k) <==> exists|i: int| 0 <= i < s.len() && s[i].0 == k,
    decreases s.len(),
{
    if s.len() > 0 {
        lemma_assoc_contains(s.drop_last(), k);
        if s.last().0 == k {
            assert(s[s.len() - 1].0 == k);
        } else {
            if assoc_view(s).contains_key(k) {
                let i = choose|i: int| 0 <= i < s.drop_last().len() && s.drop_last()[i].0 == k;
                assert(s[i].0 == k);
            }
            if exists|i: int| 0 <= i < s.len() && s[i].0 == k {
                let i = choose|i: int| 0 <= i < s.len() && s[i].0 == k;
                assert(s.drop_last()[i].0 == k);
            }
        }
    }
}

proof fn lemma_assoc_get<V>(s: Seq<(Seq<u8>, V)>, i: int)
    requires
        distinct_keys(s),
        0 <= i < s.len(),
    ensures
        assoc_view(s).contains_key(s[i].0),
        assoc_view(s)[s[i].0] == s[i].1,
    decreases s.len(),
{
    if i < s.len() - 1 {
        assert(distinct_keys(s.drop_last()));
        lemma_assoc_get(s.drop_last(), i);
        assert(s.drop_last()[i] == s[i]);
        assert(s[i].0 != s.last().0);
    }
}

proof fn lemma_assoc_push<V>(s: Seq<(Seq<u8>, V)>, k: Seq<u8>, v: V)
    ensures
        assoc_view(s.push((k, v))) == assoc_view(s).insert(k, v),
{
    assert(s.push((k, v)).drop_last() =~= s);
    assert(s.push((k, v)).last() == (k, v));
}

proof fn lemma_assoc_update<V>(s: Seq<(Seq<u8>, V)>, i: int, v: V)
    requires
        distinct_keys(s),
        0 <= i < s.len(),
    ensures
        assoc_view(s.update(i, (s[i].0, v))) =~= assoc_view(s).insert(s[i].0, v),
    decreases s.len(),
{
    let e = (s[i].0, v);
    if i == s.len() - 1 {
        assert(s.update(i, e).drop_last() =~= s.drop_last());
        assert(s.update(i, e).last() == e);
    } else {
        assert(s.update(i, e).drop_last() =~= s.drop_last().update(i, e));
        assert(distinct_keys(s.drop_last()));
        assert(s.drop_last()[i] == s[i]);
        lemma_assoc_update(s.drop_last(), i, v);
        assert(s[i].0 != s.last().0);
        assert(s.update(i, e).last() == s.last());
    }
}

proof fn lemma_assoc_remove_at<V>(s: Seq<(Seq<u8>, V)>, i: int)
    requires
        distinct_keys(s),
        0 <= i < s.len(),
    ensures
        assoc_view(s.remove(i)) =~= assoc_view(s).remove(s[i].0),
    decreases s.len(),
{
    if i == s.len() - 1 {
        assert(s.remove(i) =~= s.drop_last());
        lemma_assoc_contains(s.drop_last(), s[i].0);
        assert(forall|j: int|
            0 <= j < s.drop_last().len() ==> s.drop_last()[j] == s[j] && s[j].0 != s[i].0);
        assert(!assoc_view(s.drop_last()).contains_key(s[i].0));
    } else {
        assert(s.remove(i).drop_last() =~= s.drop_last().remove(i));
        assert(distinct_keys(s.drop_last()));
        assert(s.drop_last()[i] == s[i]);
        lemma_assoc_remove_at(s.drop_last(), i);
        assert(s.remove(i).last() == s.last());
        assert(s[i].0 != s.last().0);
    }
}

/// The position index: digest to current array position.
pub struct PosMap {
    entries: Vec<(Vec<u8>, usize)>,
}

impl View for PosMap {
    type V = Map<Seq<u8>, usize>;

    closed spec fn view(&self) -> Map<Seq<u8>, usize> {
        assoc_view(self.entry_seq())
    }
}

impl PosMap {
    pub closed spec fn entry_seq(self) -> Seq<(Seq<u8>, usize)> {
        self.entries@.map_values(|e: (Vec<u8>, usize)| (e.0@, e.1))
    }

    pub closed spec fn wf(self) -> bool {
        distinct_keys(self.entry_seq())
    }

    pub fn new() -> (r: PosMap)
        ensures
            r.wf(),
            r@ == Map::<Seq<u8>, usize>::empty(),
    {
        let r = PosMap { entries: Vec::new() };
        proof {
            assert(r.entry_seq() =~= Seq::<(Seq<u8>, usize)>::empty());
        }
        r
    }

    fn find(&self, key: &Vec<u8>) -> (r: Option<usize>)
        ensures
            match r {
                Some(i) => i < self.entry_seq().len() && self.entry_seq()[i as int].0 == key@,
                None => forall|j: int| 0 <= j < self.entry_seq().len() ==> self.entry_seq()[j].0 != key@,
            },
    {
        let mut i: usize = 0;
        while i < self.entries.len()
            invariant
                i <= self.entry_seq().len(),
                self.entry_seq().len() == self.entries@.len(),
                forall|j: int| 0 <= j < i ==> self.entry_seq()[j].0 != key@,
            decreases self.entries@.len() - i,
        {
            if keys_equal(&self.entries[i].0, key) {
                assert(self.entry_seq()[i as int].0 == key@);
                return Some(i);
            }
            assert(self.entry_seq()[i as int].0 != key@);
            i = i + 1;
        }
        None
    }

    pub fn get(&self, key: &Vec<u8>) -> (r: Option<usize>)
        requires
            self.wf(),
        ensures
            match r {
                Some(p) => self@.contains_key(key@) && self@[key@] == p,
                None => !self@.contains_key(key@),
            },
    {
        match self.find(key) {
            Some(i) => {
                proof {
                    lemma_assoc_get(self.entry_seq(), i as int);
                }
                Some(self.entries[i].1)
            },
            None => {
                proof {
                    lemma_assoc_contains(self.entry_seq(), key@);
                }
                None
            },
        }
    }

    pub fn insert(&mut self, key: Vec<u8>, pos: usize)
        requires
            old(self).wf(),
        ensures
            final(self).wf(),
            final(self)@ == old(self)@.insert(key@, pos),
    {
        let ghost s = self.entry_seq();
        match self.find(&key) {
            Some(i) => {
                proof {
                    lemma_assoc_update(s, i as int, pos);
                }
                self.entries[i] = (key, pos);
                proof {
                    assert(self.entry_seq() =~= s.update(i as int, (s[i as int].0, pos)));
                    assert(distinct_keys(self.entry_seq()));
                    assert(self@ =~= old(self)@.insert(key@, pos));
                }
            },
            None => {
                self.entries.push((key, pos));
                proof {
                    assert(self.entry_seq() =~= s.push((key@, pos)));
                    lemma_assoc_push(s, key@, pos);
                    assert(distinct_keys(self.entry_seq()));
                }
            },
        }
    }

    pub fn remove(&mut self, key: &Vec<u8>)
        requires
            old(self).wf(),
        ensures
            final(self).wf(),
            final(self)@ == old(self)@.remove(key@),
    {
        let ghost s = self.entry_seq();
        match self.find(key) {
            Some(i) => {
                proof {
                    lemma_assoc_remove_at(s, i as int);
                }
                self.entries.remove(i);
                proof {
                    assert(self.entry_seq() =~= s.remove(i as int));
                    assert(distinct_keys(self.entry_seq()));
                    assert(self@ =~= old(self)@.remove(key@));
                }
            },
            None => {
                proof {
                    lemma_assoc_contains(s, key@);
                    assert(self@ =~= old(self)@.remove(key@));
                }
            },
        }
    }
}

/// The data store: digest to the payload it identifies.
pub struct DataMap {
    entries: Vec<(Vec<u8>, Vec<u8>)>,
}

impl View for DataMap {
    type V = Map<Seq<u8>, Seq<u8>>;

    closed spec fn view(&self) -> Map<Seq<u8>, Seq<u8>> {
        assoc_view(self.entry_seq())
    }
}

impl DataMap {
    pub closed spec fn entry_seq(self) -> Seq<(Seq<u8>, Seq<u8>)> {
        self.entries@.map_values(|e: (Vec<u8>, Vec<u8>)| (e.0@, e.1@))
    }

    pub closed spec fn wf(self) -> bool {
        distinct_keys(self.entry_seq())
    }

    pub fn new() -> (r: DataMap)
        ensures
            r.wf(),
            r@ == Map::<Seq<u8>, Seq<u8>>::empty(),
    {
        let r = DataMap { entries: Vec::new() };
        proof {
            assert(r.entry_seq() =~= Seq::<(Seq<u8>, Seq<u8>)>::empty());
        }
        r
    }

    fn find(&self, key: &Vec<u8>) -> (r: Option<usize>)
        ensures
            match r {
                Some(i) => i < self.entry_seq().len() && self.entry_seq()[i as int].0 == key@,
                None => forall|j: int| 0 <= j < self.entry_seq().len() ==> self.entry_seq()[j].0 != key@,
            },
    {
        let mut i: usize = 0;
        while i < self.entries.len()
            invariant
                i <= self.entry_seq().len(),
                self.entry_seq().len() == self.entries@.len(),
                forall|j: int| 0 <= j < i ==> self.entry_seq()[j].0 != key@,
            decreases self.entries@.len() - i,
        {
            if keys_equal(&self.entries[i].0, key) {
                assert(self.entry_seq()[i as int].0 == key@);
                return Some(i);
            }
            assert(self.entry_seq()[i as int].0 != key@);
            i = i + 1;
        }
        None
    }

    /// The payload stored under the digest, copied out.
    pub fn get(&self, key: &Vec<u8>) -> (r: Option<Vec<u8>>)
        requires
            self.wf(),
        ensures
            match r {
                Some(v) => self@.contains_key(key@) && self@[key@] == v@,
                None => !self@.contains_key(key@),
            },
    {
        match self.find(key) {
            Some(i) => {
                proof {
                    lemma_assoc_get(self.entry_seq(), i as int);
                }
                Some(clone_bytes(&self.entries[i].1))
            },
            None => {
                proof {
                    lemma_assoc_contains(self.entry_seq(), key@);
                }
                None
            },
        }
    }

    pub fn insert(&mut self, key: Vec<u8>, value: Vec<u8>)
        requires
            old(self).wf(),
        ensures
            final(self).wf(),
            final(self)@ == old(self)@.insert(key@, value@),
    {
        let ghost s = self.entry_seq();
        match self.find(&key) {
            Some(i) => {
                proof {
                    lemma_assoc_update(s, i as int, value@);
                }
                self.entries[i] = (key, value);
                proof {
                    assert(self.entry_seq() =~= s.update(i as int, (s[i as int].0, value@)));
                    assert(distinct_keys(self.entry_seq()));
                    assert(self@ =~= old(self)@.insert(key@, value@));
                }
            },
            None => {
                self.entries.push((key, value));
                proof {
                    assert(self.entry_seq() =~= s.push((key@, value@)));
                    lemma_assoc_push(s, key@, value@);
                    assert(distinct_keys(self.entry_seq()));
                }
            },
        }
    }

    pub fn remove(&mut self, key: &Vec<u8>)
        requires
            old(self).wf(),
        ensures
            final(self).wf(),
            final(self)@ == old(self)@.remove(key@),
    {
        let ghost s = self.entry_seq();
        match self.find(key) {
            Some(i) => {
                proof {
                    lemma_assoc_remove_at(s, i as int);
                }
                self.entries.remove(i);
                proof {
                    assert(self.entry_seq() =~= s.remove(i as int));
                    assert(distinct_keys(self.entry_seq()));
                    assert(self@ =~= old(self)@.remove(key@));
                }
            },
            None => {
                proof {
                    lemma_assoc_contains(s, key@);
                    assert(self@ =~= old(self)@.remove(key@));
                }
            },
        }
    }

    /// Every currently stored digest, one copy each, in storage order.
    pub fn keys(&self) -> (r: Vec<Vec<u8>>)
        requires
            self.wf(),
        ensures
            forall|i: int|
                0 <= i < r@.len() ==> self@.contains_key(#[trigger] r@[i]@) && self@[r@[i]@]
                    == self.entry_seq()[i].1,
            r@.len() == self.entry_seq().len(),
            forall|k: Seq<u8>|
                self@.contains_key(k) ==> exists|i: int| 0 <= i < r@.len() && r@[i]@ == k,
    {
        let mut out: Vec<Vec<u8>> = Vec::new();
        let mut i: usize = 0;
        while i < self.entries.len()
            invariant
                self.wf(),
                i <= self.entries@.len(),
                self.entry_seq().len() == self.entries@.len(),
                out@.len() == i,
                forall|j: int| 0 <= j < i ==> #[trigger] out@[j]@ == self.entry_seq()[j].0,
            decreases self.entries@.len() - i,
        {
            out.push(clone_bytes(&self.entries[i].0));
            i = i + 1;
        }
        proof {
            assert forall|j: int| 0 <= j < out@.len() implies self@.contains_key(
                #[trigger] out@[j]@,
            ) && self@[out@[j]@] == self.entry_seq()[j].1 by {
                lemma_assoc_get(self.entry_seq(), j);
            }
            assert forall|k: Seq<u8>| self@.contains_key(k) implies exists|i2: int|
                0 <= i2 < out@.len() && out@[i2]@ == k by {
                lemma_assoc_contains(self.entry_seq(), k);
                let i2 = choose|i2: int|
                    0 <= i2 < self.entry_seq().len() && self.entry_seq()[i2].0 == k;
                assert(out@[i2]@ == k);
            }
        }
        out
    }
}

} // verus!
