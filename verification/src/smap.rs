//! Association maps with string keys.
//!
//! The remembered position state is a map from wallet address to a map
//! from instrument to cached fields. Both levels use the same small
//! structure: a vector of key/value pairs whose keys are unique. The
//! vector keeps a stable entry order, so everything a detection pass
//! emits is deterministic.

use vstd::prelude::*;

verus! {

/// Entries of a map, keys taken to their character sequences.
pub type Entries<V> = Seq<(Seq<char>, V)>;

pub open spec fn has_key<V>(s: Entries<V>, k: Seq<char>) -> bool {
    exists|i: int| 0 <= i < s.len() && (#[trigger] s[i]).0 == k
}

/// Index of the first entry with key `k`.
pub open spec fn key_idx<V>(s: Entries<V>, k: Seq<char>) -> int
    decreases s.len(),
{
    if s.len() == 0 {
        0
    } else if s[0].0 == k {
        0
    } else {
        1 + key_idx(s.drop_first(), k)
    }
}

pub open spec fn val_of<V>(s: Entries<V>, k: Seq<char>) -> V {
    s[key_idx(s, k)].1
}

pub open spec fn unique_keys<V>(s: Entries<V>) -> bool {
    forall|i: int, j: int| 0 <= i < j < s.len() ==> (#[trigger] s[i]).0 != (#[trigger] s[j]).0
}

/// Replace the first entry keyed `k`, or append one.
pub open spec fn upsert<V>(s: Entries<V>, k: Seq<char>, v: V) -> Entries<V> {
    if has_key(s, k) {
        s.update(key_idx(s, k), (k, v))
    } else {
        s.push((k, v))
    }
}

/// The first entry keyed `k` is where `key_idx` says, and none comes
/// before it.
pub proof fn lemma_key_idx<V>(s: Entries<V>, k: Seq<char>)
    requires
        has_key(s, k),
    ensures
        0 <= key_idx(s, k) < s.len(),
        s[key_idx(s, k)].0 == k,
        forall|j: int| 0 <= j < key_idx(s, k) ==> (#[trigger] s[j]).0 != k,
    decreases s.len(),
{
    if s.len() > 0 && s[0].0 != k {
        assert(has_key(s.drop_first(), k)) by {
            let i = choose|i: int| 0 <= i < s.len() && (#[trigger] s[i]).0 == k;
            assert(s.drop_first()[i - 1].0 == k);
        }
        lemma_key_idx(s.drop_first(), k);
        assert forall|j: int| 0 <= j < key_idx(s, k) implies (#[trigger] s[j]).0 != k by {
            if j > 0 {
                assert(s.drop_first()[j - 1] == s[j]);
            }
        }
    }
}

/// Upserting keeps keys unique and changes exactly the entry keyed `k`.
pub proof fn lemma_upsert<V>(s: Entries<V>, k: Seq<char>, v: V)
    requires
        unique_keys(s),
    ensures
        unique_keys(upsert(s, k, v)),
        has_key(upsert(s, k, v), k),
        val_of(upsert(s, k, v), k) == v,
        forall|k2: Seq<char>| k2 != k ==> has_key(upsert(s, k, v), k2) == has_key(s, k2),
        forall|k2: Seq<char>|
            k2 != k && has_key(s, k2) ==> val_of(upsert(s, k, v), k2) == val_of(s, k2),
{
    let t = upsert(s, k, v);
    if has_key(s, k) {
        lemma_key_idx(s, k);
        let i = key_idx(s, k);
        assert forall|k2: Seq<char>| k2 != k && has_key(s, k2) implies has_key(t, k2)
            && val_of(t, k2) == val_of(s, k2) by {
            lemma_key_idx(s, k2);
            let j = key_idx(s, k2);
            assert(t[j].0 == k2);
            lemma_key_idx_update(s, k2, i, (k, v));
        }
        assert forall|k2: Seq<char>| k2 != k && has_key(t, k2) implies has_key(s, k2) by {
            let j = choose|j: int| 0 <= j < t.len() && (#[trigger] t[j]).0 == k2;
            assert(s[j].0 == k2);
        }
        assert(t[i].0 == k);
        lemma_key_idx_update(s, k, i, (k, v));
        lemma_key_idx(t, k);
    } else {
        assert forall|k2: Seq<char>| k2 != k && has_key(s, k2) implies has_key(t, k2)
            && val_of(t, k2) == val_of(s, k2) by {
            lemma_key_idx(s, k2);
            let j = key_idx(s, k2);
            assert(t[j].0 == k2);
            lemma_key_idx_push(s, k2, (k, v));
        }
        assert forall|k2: Seq<char>| k2 != k && has_key(t, k2) implies has_key(s, k2) by {
            let j = choose|j: int| 0 <= j < t.len() && (#[trigger] t[j]).0 == k2;
            assert(s[j].0 == k2);
        }
        assert(t[s.len() as int].0 == k);
        lemma_key_idx_push(s, k, (k, v));
        lemma_key_idx(t, k);
    }
}

/// `key_idx` for a key `k2` is unmoved by updating another entry to a
/// pair whose key is not `k2`, or by appending one.
pub proof fn lemma_key_idx_update<V>(s: Entries<V>, k2: Seq<char>, i: int, p: (Seq<char>, V))
    requires
        has_key(s, k2),
        0 <= i < s.len(),
        p.0 == k2 ==> i == key_idx(s, k2),
        p.0 != k2 ==> s[i].0 != k2,
    ensures
        key_idx(s.update(i, p), k2) == key_idx(s, k2),
    decreases s.len(),
{
    lemma_key_idx(s, k2);
    if s[0].0 == k2 {
        if i == 0 {
            assert(p.0 == k2);
        } else {
            assert(s.update(i, p)[0] == s[0]);
        }
    } else {
        assert(has_key(s.drop_first(), k2)) by {
            let j = choose|j: int| 0 <= j < s.len() && (#[trigger] s[j]).0 == k2;
            assert(s.drop_first()[j - 1].0 == k2);
        }
        if i == 0 {
            assert(s.update(0, p).drop_first() =~= s.drop_first());
            lemma_key_idx(s.drop_first(), k2);
        } else {
            assert(s.update(i, p).drop_first() =~= s.drop_first().update(i - 1, p));
            lemma_key_idx(s.drop_first(), k2);
            lemma_key_idx_update(s.drop_first(), k2, i - 1, p);
        }
    }
}

/// `key_idx` for a present key is unmoved by appending an entry.
pub proof fn lemma_key_idx_push<V>(s: Entries<V>, k2: Seq<char>, p: (Seq<char>, V))
    requires
        has_key(s, k2) || p.0 == k2,
    ensures
        key_idx(s.push(p), k2) == if has_key(s, k2) {
            key_idx(s, k2)
        } else {
            s.len() as int
        },
    decreases s.len(),
{
    if s.len() == 0 {
        assert(s.push(p)[0] == p);
    } else if s[0].0 == k2 {
    } else {
        assert(s.push(p).drop_first() =~= s.drop_first().push(p));
        if has_key(s, k2) {
            assert(has_key(s.drop_first(), k2)) by {
                let j = choose|j: int| 0 <= j < s.len() && (#[trigger] s[j]).0 == k2;
                assert(s.drop_first()[j - 1].0 == k2);
            }
            lemma_key_idx_push(s.drop_first(), k2, p);
        } else {
            assert(!has_key(s.drop_first(), k2)) by {
                if has_key(s.drop_first(), k2) {
                    let j = choose|j: int|
                        0 <= j < s.drop_first().len() && (#[trigger] s.drop_first()[j]).0 == k2;
                    assert(s[j + 1].0 == k2);
                }
            }
            lemma_key_idx_push(s.drop_first(), k2, p);
        }
    }
}

/// Two entry lists with the same keys slot every key identically.
pub proof fn lemma_key_idx_same_keys<A, B>(s: Entries<A>, t: Entries<B>, k: Seq<char>)
    requires
        s.len() == t.len(),
        forall|i: int| 0 <= i < s.len() ==> (#[trigger] s[i]).0 == (#[trigger] t[i]).0,
    ensures
        has_key(s, k) == has_key(t, k),
        has_key(s, k) ==> key_idx(s, k) == key_idx(t, k),
    decreases s.len(),
{
    assert(has_key(s, k) == has_key(t, k)) by {
        if has_key(s, k) {
            let i = choose|i: int| 0 <= i < s.len() && (#[trigger] s[i]).0 == k;
            assert(t[i].0 == k);
        }
        if has_key(t, k) {
            let i = choose|i: int| 0 <= i < t.len() && (#[trigger] t[i]).0 == k;
            assert(s[i].0 == k);
        }
    }
    if s.len() > 0 && has_key(s, k) && s[0].0 != k {
        assert(has_key(s.drop_first(), k)) by {
            let i = choose|i: int| 0 <= i < s.len() && (#[trigger] s[i]).0 == k;
            assert(s.drop_first()[i - 1].0 == k);
        }
        assert forall|i: int| 0 <= i < s.drop_first().len() implies (
        #[trigger] s.drop_first()[i]).0 == (#[trigger] t.drop_first()[i]).0 by {
            assert(s.drop_first()[i] == s[i + 1]);
            assert(t.drop_first()[i] == t[i + 1]);
        }
        lemma_key_idx_same_keys(s.drop_first(), t.drop_first(), k);
    }
}

/// Map from string keys to values: a vector of uniquely keyed pairs.
pub struct SMap<V> {
    pub pairs: Vec<(String, V)>,
}

impl<V> View for SMap<V> {
    type V = Entries<V>;

    open spec fn view(&self) -> Entries<V> {
        Seq::new(self.pairs@.len(), |i: int| (self.pairs@[i].0@, self.pairs@[i].1))
    }
}

impl<V> SMap<V> {
    /// Keys stay unique; every operation preserves this.
    pub open spec fn wf(&self) -> bool {
        unique_keys(self@)
    }

    pub fn new() -> (m: Self)
        ensures
            m@ =~= Seq::<(Seq<char>, V)>::empty(),
            m.wf(),
    {
        SMap { pairs: Vec::new() }
    }

    pub fn len(&self) -> (n: usize)
        ensures
            n == self@.len(),
    {
        self.pairs.len()
    }

    /// Index of the entry keyed `k`, if any.
    pub fn find(&self, k: &String) -> (r: Option<usize>)
        ensures
            match r {
                Some(i) => {
                    &&& i < self@.len()
                    &&& self@[i as int].0 == k@
                    &&& has_key(self@, k@)
                    &&& key_idx(self@, k@) == i
                },
                None => !has_key(self@, k@),
            },
    {
        let n = self.pairs.len();
        let mut i: usize = 0;
        while i < n
            invariant
                0 <= i <= n,
                n == self@.len(),
                forall|j: int| 0 <= j < i ==> (#[trigger] self@[j]).0 != k@,
            decreases n - i,
        {
            if self.pairs[i].0 == *k {
                proof {
                    lemma_key_idx_from_front(self@, k@, i as int);
                }
                return Some(i);
            }
            i = i + 1;
        }
        None
    }

    pub fn contains_key(&self, k: &String) -> (r: bool)
        ensures
            r == has_key(self@, k@),
    {
        self.find(k).is_some()
    }

    pub fn get(&self, k: &String) -> (r: Option<&V>)
        ensures
            match r {
                Some(v) => has_key(self@, k@) && *v == val_of(self@, k@),
                None => !has_key(self@, k@),
            },
    {
        match self.find(k) {
            Some(i) => Some(&self.pairs[i].1),
            None => None,
        }
    }

    /// Replace the entry keyed `k`, or append one.
    pub fn insert(&mut self, k: String, v: V)
        requires
            old(self).wf(),
        ensures
            final(self).wf(),
            final(self)@ == upsert(old(self)@, k@, v),
    {
        proof {
            lemma_upsert(self@, k@, v);
        }
        match self.find(&k) {
            Some(i) => {
                self.pairs[i] = (k, v);
                proof {
                    assert(self@ =~= upsert(old(self)@, k@, v));
                }
            },
            None => {
                self.pairs.push((k, v));
                proof {
                    assert(self@ =~= upsert(old(self)@, k@, v));
                }
            },
        }
    }
}

/// If the first `i` entries miss `k` and entry `i` carries it, entry
/// `i` is the first with it.
pub proof fn lemma_key_idx_from_front<V>(s: Entries<V>, k: Seq<char>, i: int)
    requires
        0 <= i < s.len(),
        s[i].0 == k,
        forall|j: int| 0 <= j < i ==> (#[trigger] s[j]).0 != k,
    ensures
        has_key(s, k),
        key_idx(s, k) == i,
    decreases i,
{
    if i > 0 {
        assert forall|j: int| 0 <= j < i - 1 implies (#[trigger] s.drop_first()[j]).0 != k by {
            assert(s.drop_first()[j] == s[j + 1]);
        }
        assert(s.drop_first()[i - 1] == s[i]);
        lemma_key_idx_from_front(s.drop_first(), k, i - 1);
    }
}

} // verus!
