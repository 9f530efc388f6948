//! An ordered map: entries are kept sorted by key, so walking it visits the keys in
//! increasing order (the order in which the graph lists its nodes and links).
use vstd::prelude::*;

verus! {

/// Keys of an ordered map: each key has an integer rank, and distinct keys have distinct ranks.
pub trait MapKey: Copy + Sized {
    spec fn rank(self) -> int;

    proof fn lemma_rank_injective(a: Self, b: Self)
        ensures
            a.rank() == b.rank() ==> a == b,
    ;

    fn key_rank(&self) -> (r: i128)
        ensures
            r as int == self.rank(),
    ;
}

impl MapKey for char {
    open spec fn rank(self) -> int {
        (self as u32) as int
    }

    proof fn lemma_rank_injective(a: Self, b: Self) {
        vstd::utf8::char_u32_cast(a, a as u32);
        vstd::utf8::char_u32_cast(b, b as u32);
    }

    fn key_rank(&self) -> (r: i128) {
        (*self as u32) as i128
    }
}

/// An ordered pair of characters (the key of a link: from, to).
#[derive(Clone, Copy, PartialEq, Eq, Debug)]
pub struct CharPair(pub char, pub char);

impl MapKey for CharPair {
    open spec fn rank(self) -> int {
        (self.0 as int) * 0x200000 + (self.1 as int)
    }

    proof fn lemma_rank_injective(a: Self, b: Self) {
        assert(0 <= a.1 as int && (a.1 as int) < 0x200000);
        assert(0 <= b.1 as int && (b.1 as int) < 0x200000);
        if a.rank() == b.rank() {
            if (a.0 as int) < (b.0 as int) {
                assert((a.0 as int) * 0x200000 + 0x200000 <= (b.0 as int) * 0x200000);
            } else if (b.0 as int) < (a.0 as int) {
                assert((b.0 as int) * 0x200000 + 0x200000 <= (a.0 as int) * 0x200000);
            }
        }
    }

    fn key_rank(&self) -> (r: i128) {
        (self.0 as i128) * 0x200000 + (self.1 as i128)
    }
}

impl MapKey for i32 {
    open spec fn rank(self) -> int {
        self as int
    }

    proof fn lemma_rank_injective(a: Self, b: Self) {
    }

    fn key_rank(&self) -> (r: i128) {
        *self as i128
    }
}

impl MapKey for usize {
    open spec fn rank(self) -> int {
        self as int
    }

    proof fn lemma_rank_injective(a: Self, b: Self) {
    }

    fn key_rank(&self) -> (r: i128) {
        *self as i128
    }
}

/// Whether the keys of `s` have strictly increasing ranks.
pub open spec fn sorted_by_rank<K: MapKey, V>(s: Seq<(K, V)>) -> bool {
    forall|i: int, j: int| 0 <= i < j < s.len() ==> (#[trigger] s[i]).0.rank() < (#[trigger] s[j]).0.rank()
}

/// Whether `k` is the key of some entry of `s`.
pub open spec fn has_key<K, V>(s: Seq<(K, V)>, k: K) -> bool {
    exists|i: int| 0 <= i < s.len() && (#[trigger] s[i]).0 == k
}

/// The index of the entry of `s` with key `k` (meaningful when `has_key(s, k)`).
pub open spec fn index_of_key<K, V>(s: Seq<(K, V)>, k: K) -> int {
    choose|i: int| 0 <= i < s.len() && (#[trigger] s[i]).0 == k
}

/// The keys of `s`, in order.
pub open spec fn keys_of<K, V>(s: Seq<(K, V)>) -> Seq<K> {
    s.map_values(|p: (K, V)| p.0)
}

pub struct KeyMap<K, V> {
    entries: Vec<(K, V)>,
}

impl<K: MapKey, V> KeyMap<K, V> {
    /// The entries, ordered by key.
    pub closed spec fn pairs(&self) -> Seq<(K, V)> {
        self.entries@
    }

    pub open spec fn wf(&self) -> bool {
        sorted_by_rank(self.pairs())
    }

    /// The keys, in increasing order.
    pub open spec fn keys(&self) -> Seq<K> {
        keys_of(self.pairs())
    }

    pub open spec fn view(&self) -> Map<K, V> {
        Map::new(
            |k: K| has_key(self.pairs(), k),
            |k: K| self.pairs()[index_of_key(self.pairs(), k)].1,
        )
    }

    pub open spec fn spec_len(&self) -> nat {
        self.pairs().len()
    }

    /// In a sorted sequence, the entry of a key is the only one with that key.
    pub proof fn lemma_unique_index(s: Seq<(K, V)>, i: int, k: K)
        requires
            sorted_by_rank(s),
            0 <= i < s.len(),
            s[i].0 == k,
        ensures
            has_key(s, k),
            index_of_key(s, k) == i,
    {
        assert(has_key(s, k));
        let j = index_of_key(s, k);
        if j != i {
            if j < i {
                assert(s[j].0.rank() < s[i].0.rank());
            } else {
                assert(s[i].0.rank() < s[j].0.rank());
            }
        }
    }

    /// The map and its entries agree: entry `i` maps its key to its value.
    pub proof fn lemma_entry(&self, i: int)
        requires
            self.wf(),
            0 <= i < self.spec_len(),
        ensures
            self@.contains_key(self.pairs()[i].0),
            self@[self.pairs()[i].0] == self.pairs()[i].1,
            self.keys()[i] == self.pairs()[i].0,
    {
        Self::lemma_unique_index(self.pairs(), i, self.pairs()[i].0);
    }

    /// Every key of the map is the key of some entry.
    pub proof fn lemma_key_in_keys(&self, k: K)
        requires
            self.wf(),
            self@.contains_key(k),
        ensures
            self.keys().contains(k),
            0 <= self.keys().index_of(k) < self.spec_len(),
            self.pairs()[self.keys().index_of(k)].0 == k,
            self@[k] == self.pairs()[self.keys().index_of(k)].1,
    {
        let i = index_of_key(self.pairs(), k);
        assert(self.keys()[i] == k);
        assert(self.keys().contains(k));
        let j = self.keys().index_of(k);
        assert(self.keys()[j] == k);
        assert(self.pairs()[j].0 == k);
        Self::lemma_unique_index(self.pairs(), j, k);
    }

    /// The keys are distinct, and a key is in the map exactly when it is among the keys.
    pub proof fn lemma_keys(&self)
        requires
            self.wf(),
        ensures
            self.keys().len() == self.spec_len(),
            self.keys().no_duplicates(),
            forall|k: K| #[trigger] self@.contains_key(k) <==> self.keys().contains(k),
            forall|i: int, j: int|
                0 <= i < j < self.keys().len() ==> (#[trigger] self.keys()[i]).rank()
                    < (#[trigger] self.keys()[j]).rank(),
            self@.dom().finite(),
            self@.dom().len() == self.spec_len(),
    {
        let ks = self.keys();
        assert forall|i: int, j: int| 0 <= i < j < ks.len() implies (#[trigger] ks[i]).rank() < (
        #[trigger] ks[j]).rank() by {
            assert(ks[i] == self.pairs()[i].0);
            assert(ks[j] == self.pairs()[j].0);
        }
        assert forall|k: K| #[trigger] self@.contains_key(k) <==> ks.contains(k) by {
            if self@.contains_key(k) {
                self.lemma_key_in_keys(k);
            }
            if ks.contains(k) {
                let i = ks.index_of(k);
                assert(self.pairs()[i].0 == k);
            }
        }
        assert(ks.no_duplicates());
        assert(self@.dom() =~= ks.to_set());
        ks.unique_seq_to_set();
    }

    pub fn new() -> (m: Self)
        ensures
            m.wf(),
            m@ == Map::<K, V>::empty(),
            m.spec_len() == 0,
    {
        let m = KeyMap { entries: Vec::new() };
        assert(m@ =~= Map::<K, V>::empty());
        m
    }

    pub fn len(&self) -> (n: usize)
        ensures
            n == self.spec_len(),
    {
        self.entries.len()
    }

    pub fn is_empty(&self) -> (b: bool)
        requires
            self.wf(),
        ensures
            b == (self.spec_len() == 0),
            b == (self@.dom().len() == 0),
    {
        proof {
            self.lemma_keys();
        }
        self.entries.len() == 0
    }

    /// The position of `k` among the keys, if it is a key.
    pub fn find(&self, k: &K) -> (r: Option<usize>)
        requires
            self.wf(),
        ensures
            match r {
                Some(i) => i < self.spec_len() && self.pairs()[i as int].0 == *k
                    && self@.contains_key(*k) && self@[*k] == self.pairs()[i as int].1,
                None => !self@.contains_key(*k),
            },
    {
        let kr = k.key_rank();
        let mut i: usize = 0;
        while i < self.entries.len()
            invariant
                self.wf(),
                i <= self.entries@.len(),
                kr == k.rank(),
                forall|j: int| 0 <= j < i ==> (#[trigger] self.pairs()[j]).0 != *k,
            decreases self.entries@.len() - i,
        {
            let r = self.entries[i].0.key_rank();
            if r == kr {
                proof {
                    K::lemma_rank_injective(self.pairs()[i as int].0, *k);
                    self.lemma_entry(i as int);
                }
                return Some(i);
            }
            i = i + 1;
        }
        proof {
            if self@.contains_key(*k) {
                let j = index_of_key(self.pairs(), *k);
                assert(self.pairs()[j].0 == *k);
            }
        }
        None
    }

    pub fn contains_key(&self, k: &K) -> (b: bool)
        requires
            self.wf(),
        ensures
            b == self@.contains_key(*k),
    {
        self.find(k).is_some()
    }

    pub fn get(&self, k: &K) -> (r: Option<&V>)
        requires
            self.wf(),
        ensures
            match r {
                Some(v) => self@.contains_key(*k) && self@[*k] == *v,
                None => !self@.contains_key(*k),
            },
    {
        match self.find(k) {
            Some(i) => Some(&self.entries[i].1),
            None => None,
        }
    }

    /// The key of entry `i`.
    pub fn key_at(&self, i: usize) -> (k: K)
        requires
            self.wf(),
            i < self.spec_len(),
        ensures
            k == self.pairs()[i as int].0,
            k == self.keys()[i as int],
            self@.contains_key(k),
            self@[k] == self.pairs()[i as int].1,
    {
        proof {
            self.lemma_entry(i as int);
        }
        self.entries[i].0
    }

    /// The value of entry `i`.
    pub fn value_at(&self, i: usize) -> (v: &V)
        requires
            self.wf(),
            i < self.spec_len(),
        ensures
            *v == self.pairs()[i as int].1,
            self@.contains_key(self.pairs()[i as int].0),
            self@[self.pairs()[i as int].0] == *v,
    {
        proof {
            self.lemma_entry(i as int);
        }
        &self.entries[i].1
    }

    /// The keys, in increasing order.
    pub fn keys_vec(&self) -> (ks: Vec<K>)
        requires
            self.wf(),
        ensures
            ks@ == self.keys(),
    {
        let mut ks: Vec<K> = Vec::new();
        let mut i: usize = 0;
        while i < self.entries.len()
            invariant
                i <= self.entries@.len(),
                ks@ == keys_of(self.pairs().take(i as int)),
            decreases self.entries@.len() - i,
        {
            ks.push(self.entries[i].0);
            i = i + 1;
            assert(keys_of(self.pairs().take(i as int)) =~= keys_of(self.pairs().take(
                (i - 1) as int,
            )).push(self.pairs()[i - 1].0));
        }
        assert(self.pairs().take(i as int) =~= self.pairs());
        ks
    }


    /// Replaces the value of entry `i`, keeping its key.
    pub fn set_value_at(&mut self, i: usize, v: V)
        requires
            old(self).wf(),
            i < old(self).spec_len(),
        ensures
            final(self).wf(),
            final(self).pairs() == old(self).pairs().update(i as int, (old(self).pairs()[i as int].0, v)),
            final(self).keys() == old(self).keys(),
            final(self)@ == old(self)@.insert(old(self).pairs()[i as int].0, v),
            final(self).spec_len() == old(self).spec_len(),
    {
        let ghost old_s = self.pairs();
        let k = self.entries[i].0;
        let mut entries = Vec::new();
        std::mem::swap(&mut entries, &mut self.entries);
        entries.set(i, (k, v));
        self.entries = entries;
        let ghost new_s = self.pairs();
        assert(new_s =~= old_s.update(i as int, (k, v)));
        assert(keys_of(new_s) =~= keys_of(old_s));
        proof {
            assert(sorted_by_rank(new_s)) by {
                assert forall|a: int, b: int| 0 <= a < b < new_s.len() implies (
                #[trigger] new_s[a]).0.rank() < (#[trigger] new_s[b]).0.rank() by {
                    assert(old_s[a].0.rank() < old_s[b].0.rank());
                }
            }
            Self::lemma_unique_index(old_s, i as int, k);
            assert(self@ =~= old_s_map(old_s).insert(k, v)) by {
                assert forall|key: K| #[trigger] self@.contains_key(key) <==> old_s_map(
                    old_s,
                ).insert(k, v).contains_key(key) by {
                    if has_key(old_s, key) {
                        let j = index_of_key(old_s, key);
                        assert(new_s[j].0 == key);
                    }
                    if has_key(new_s, key) {
                        let j = index_of_key(new_s, key);
                        assert(old_s[j].0 == key);
                    }
                }
                assert forall|key: K| #[trigger] self@.contains_key(key) implies self@[key]
                    == old_s_map(old_s).insert(k, v)[key] by {
                    let j = index_of_key(new_s, key);
                    Self::lemma_unique_index(new_s, j, key);
                    if key != k {
                        Self::lemma_unique_index(old_s, j, key);
                    }
                }
            }
        }
    }


    /// Adds `k`, which comes after every key of the map, as its last entry.
    pub fn push_last(&mut self, k: K, v: V)
        requires
            old(self).wf(),
            forall|j: int| 0 <= j < old(self).spec_len() ==> (#[trigger] old(self).pairs()[j]).0.rank() < k.rank(),
        ensures
            final(self).wf(),
            final(self).pairs() == old(self).pairs().push((k, v)),
            final(self).keys() == old(self).keys().push(k),
            final(self)@ == old(self)@.insert(k, v),
            !old(self)@.contains_key(k),
            final(self).spec_len() == old(self).spec_len() + 1,
    {
        let ghost old_s = self.pairs();
        proof {
            if has_key(old_s, k) {
                let j = index_of_key(old_s, k);
                assert(old_s[j].0.rank() < k.rank());
            }
        }
        let mut entries = Vec::new();
        std::mem::swap(&mut entries, &mut self.entries);
        entries.push((k, v));
        self.entries = entries;
        let ghost new_s = self.pairs();
        assert(new_s =~= old_s.push((k, v)));
        assert(keys_of(new_s) =~= keys_of(old_s).push(k));
        proof {
            assert(sorted_by_rank(new_s)) by {
                assert forall|a: int, b: int| 0 <= a < b < new_s.len() implies (
                #[trigger] new_s[a]).0.rank() < (#[trigger] new_s[b]).0.rank() by {
                    if b < old_s.len() {
                        assert(old_s[a].0.rank() < old_s[b].0.rank());
                    } else {
                        assert(old_s[a].0.rank() < k.rank());
                    }
                }
            }
            assert(self@ =~= old_s_map(old_s).insert(k, v)) by {
                assert forall|key: K| #[trigger] self@.contains_key(key) <==> old_s_map(
                    old_s,
                ).insert(k, v).contains_key(key) by {
                    if has_key(old_s, key) {
                        let j = index_of_key(old_s, key);
                        assert(new_s[j].0 == key);
                    }
                    if key == k {
                        assert(new_s[old_s.len() as int].0 == k);
                    }
                    if has_key(new_s, key) {
                        let j = index_of_key(new_s, key);
                        if j < old_s.len() {
                            assert(old_s[j].0 == key);
                        }
                    }
                }
                assert forall|key: K| #[trigger] self@.contains_key(key) implies self@[key]
                    == old_s_map(old_s).insert(k, v)[key] by {
                    let j = index_of_key(new_s, key);
                    Self::lemma_unique_index(new_s, j, key);
                    if j < old_s.len() {
                        Self::lemma_unique_index(old_s, j, key);
                    }
                }
            }
        }
    }

    /// Sets the value of `k` to `v`, adding `k` if it is not a key yet.
    /// Returns the former value of `k`, if any.
    pub fn insert(&mut self, k: K, v: V) -> (r: Option<V>)
        requires
            old(self).wf(),
        ensures
            final(self).wf(),
            final(self)@ == old(self)@.insert(k, v),
            match r {
                Some(w) => old(self)@.contains_key(k) && w == old(self)@[k],
                None => !old(self)@.contains_key(k),
            },
            final(self).spec_len() == old(self).spec_len() + (if r is Some {
                0int
            } else {
                1int
            }),
    {
        let ghost old_s = self.pairs();
        let kr = k.key_rank();
        let mut entries = Vec::new();
        std::mem::swap(&mut entries, &mut self.entries);
        let mut i: usize = 0;
        while i < entries.len()
            invariant
                entries@ == old_s,
                sorted_by_rank(old_s),
                i <= entries@.len(),
                kr == k.rank(),
                forall|j: int| 0 <= j < i ==> (#[trigger] old_s[j]).0.rank() < k.rank(),
            ensures
                i <= entries@.len(),
                forall|j: int| 0 <= j < i ==> (#[trigger] old_s[j]).0.rank() < k.rank(),
                i < entries@.len() ==> old_s[i as int].0.rank() >= k.rank(),
            decreases entries@.len() - i,
        {
            let r = entries[i].0.key_rank();
            if r >= kr {
                break;
            }
            i = i + 1;
        }
        let replaced = i < entries.len() && entries[i].0.key_rank() == kr;
        if replaced {
            proof {
                K::lemma_rank_injective(old_s[i as int].0, k);
            }
            let mut pair = (k, v);
            std::mem::swap(&mut pair, &mut entries[i]);
            self.entries = entries;
            let ghost new_s = self.pairs();
            assert(new_s =~= old_s.update(i as int, (k, v)));
            proof {
                assert(sorted_by_rank(new_s)) by {
                    assert forall|a: int, b: int| 0 <= a < b < new_s.len() implies (
                    #[trigger] new_s[a]).0.rank() < (#[trigger] new_s[b]).0.rank() by {
                        assert(old_s[a].0.rank() < old_s[b].0.rank());
                    }
                }
                Self::lemma_unique_index(old_s, i as int, k);
                assert(self@ =~= old_s_map(old_s).insert(k, v)) by {
                    assert forall|key: K| #[trigger] self@.contains_key(key) <==> old_s_map(
                        old_s,
                    ).insert(k, v).contains_key(key) by {
                        if has_key(old_s, key) {
                            let j = index_of_key(old_s, key);
                            assert(new_s[j].0 == key);
                        }
                        if has_key(new_s, key) {
                            let j = index_of_key(new_s, key);
                            assert(old_s[j].0 == key);
                        }
                    }
                    assert forall|key: K| #[trigger] self@.contains_key(key) implies self@[key]
                        == old_s_map(old_s).insert(k, v)[key] by {
                        let j = index_of_key(new_s, key);
                        Self::lemma_unique_index(new_s, j, key);
                        if key != k {
                            Self::lemma_unique_index(old_s, j, key);
                        }
                    }
                }
            }
            Some(pair.1)
        } else {
            proof {
                if i < entries@.len() {
                    assert(old_s[i as int].0.rank() > k.rank());
                }
            }
            entries.insert(i, (k, v));
            self.entries = entries;
            let ghost new_s = self.pairs();
            assert(new_s =~= old_s.insert(i as int, (k, v)));
            proof {
                assert(sorted_by_rank(new_s)) by {
                    assert forall|a: int, b: int| 0 <= a < b < new_s.len() implies (
                    #[trigger] new_s[a]).0.rank() < (#[trigger] new_s[b]).0.rank() by {
                        if a < i && b < i {
                            assert(old_s[a].0.rank() < old_s[b].0.rank());
                        } else if a < i && b == i {
                        } else if a < i {
                            assert(old_s[a].0.rank() < old_s[b - 1].0.rank());
                        } else if a == i {
                            assert(old_s[i as int].0.rank() <= old_s[b - 1].0.rank());
                        } else {
                            assert(old_s[a - 1].0.rank() < old_s[b - 1].0.rank());
                        }
                    }
                }
                assert(!has_key(old_s, k)) by {
                    if has_key(old_s, k) {
                        let j = index_of_key(old_s, k);
                        if j < i {
                        } else {
                            assert(old_s[i as int].0.rank() <= old_s[j].0.rank());
                        }
                    }
                }
                assert(self@ =~= old_s_map(old_s).insert(k, v)) by {
                    assert forall|key: K| #[trigger] self@.contains_key(key) <==> old_s_map(
                        old_s,
                    ).insert(k, v).contains_key(key) by {
                        if has_key(old_s, key) {
                            let j = index_of_key(old_s, key);
                            if j < i {
                                assert(new_s[j].0 == key);
                            } else {
                                assert(new_s[j + 1].0 == key);
                            }
                        }
                        if key == k {
                            assert(new_s[i as int].0 == k);
                        }
                        if has_key(new_s, key) {
                            let j = index_of_key(new_s, key);
                            if j < i {
                                assert(old_s[j].0 == key);
                            } else if j > i {
                                assert(old_s[j - 1].0 == key);
                            }
                        }
                    }
                    assert forall|key: K| #[trigger] self@.contains_key(key) implies self@[key]
                        == old_s_map(old_s).insert(k, v)[key] by {
                        let j = index_of_key(new_s, key);
                        Self::lemma_unique_index(new_s, j, key);
                        if j < i {
                            Self::lemma_unique_index(old_s, j, key);
                        } else if j > i {
                            Self::lemma_unique_index(old_s, j - 1, key);
                        }
                    }
                }
            }
            None
        }
    }

    /// Removes `k`, returning its value if it was a key.
    pub fn remove(&mut self, k: &K) -> (r: Option<V>)
        requires
            old(self).wf(),
        ensures
            final(self).wf(),
            final(self)@ == old(self)@.remove(*k),
            match r {
                Some(w) => old(self)@.contains_key(*k) && w == old(self)@[*k],
                None => !old(self)@.contains_key(*k),
            },
            final(self).spec_len() == old(self).spec_len() - (if r is Some {
                1int
            } else {
                0int
            }),
    {
        let ghost old_s = self.pairs();
        match self.find(k) {
            None => {
                assert(self@ =~= old(self)@.remove(*k));
                None
            },
            Some(i) => {
                let mut entries = Vec::new();
                std::mem::swap(&mut entries, &mut self.entries);
                let pair = entries.remove(i);
                self.entries = entries;
                let ghost new_s = self.pairs();
                assert(new_s =~= old_s.remove(i as int));
                proof {
                    assert(sorted_by_rank(new_s)) by {
                        assert forall|a: int, b: int| 0 <= a < b < new_s.len() implies (
                        #[trigger] new_s[a]).0.rank() < (#[trigger] new_s[b]).0.rank() by {
                            if b < i {
                                assert(old_s[a].0.rank() < old_s[b].0.rank());
                            } else if a < i {
                                assert(old_s[a].0.rank() < old_s[b + 1].0.rank());
                            } else {
                                assert(old_s[a + 1].0.rank() < old_s[b + 1].0.rank());
                            }
                        }
                    }
                    assert(self@ =~= old_s_map(old_s).remove(*k)) by {
                        assert forall|key: K| #[trigger] self@.contains_key(key) <==> old_s_map(
                            old_s,
                        ).remove(*k).contains_key(key) by {
                            if has_key(old_s, key) && key != *k {
                                let j = index_of_key(old_s, key);
                                if j < i {
                                    assert(new_s[j].0 == key);
                                } else {
                                    assert(j != i);
                                    assert(new_s[j - 1].0 == key);
                                }
                            }
                            if has_key(new_s, key) {
                                let j = index_of_key(new_s, key);
                                if j < i {
                                    assert(old_s[j].0 == key);
                                    assert(old_s[j].0.rank() < old_s[i as int].0.rank());
                                } else {
                                    assert(old_s[j + 1].0 == key);
                                    assert(old_s[i as int].0.rank() < old_s[j + 1].0.rank());
                                }
                            }
                        }
                        assert forall|key: K| #[trigger] self@.contains_key(key) implies self@[key]
                            == old_s_map(old_s).remove(*k)[key] by {
                            let j = index_of_key(new_s, key);
                            Self::lemma_unique_index(new_s, j, key);
                            if j < i {
                                Self::lemma_unique_index(old_s, j, key);
                            } else {
                                Self::lemma_unique_index(old_s, j + 1, key);
                            }
                        }
                    }
                }
                Some(pair.1)
            },
        }
    }
}

/// The map described by a sequence of entries.
pub open spec fn old_s_map<K, V>(s: Seq<(K, V)>) -> Map<K, V> {
    Map::new(|k: K| has_key(s, k), |k: K| s[index_of_key(s, k)].1)
}

impl<K: MapKey, V: Copy> KeyMap<K, V> {
    /// A copy of the map, with the same entries.
    pub fn duplicate(&self) -> (m: Self)
        ensures
            m.pairs() == self.pairs(),
            m@ == self@,
    {
        let mut entries: Vec<(K, V)> = Vec::new();
        let mut i: usize = 0;
        while i < self.entries.len()
            invariant
                i <= self.entries@.len(),
                entries@ == self.entries@.take(i as int),
            decreases self.entries@.len() - i,
        {
            let e = self.entries[i];
            entries.push(e);
            i = i + 1;
            assert(entries@ =~= self.entries@.take(i as int));
        }
        assert(entries@ =~= self.entries@);
        KeyMap { entries }
    }
}

} // verus!
