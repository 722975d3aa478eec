//! A map from strings to values: a fixed number of buckets chosen by a hash
//! of the key, each holding parallel vectors of keys and values.

use vstd::prelude::*;
use crate::text::chars_of;

verus! {

/// How many buckets a table has.
pub const BUCKETS: usize = 16384;

/// The bucket of key `s`: a polynomial hash of its characters.
pub open spec fn bucket_of(s: Seq<char>) -> int
    decreases s.len(),
{
    if s.len() == 0 {
        0
    } else {
        (bucket_of(s.drop_last()) * 31 + (s.last() as u32 as int) % (BUCKETS as int)) % (BUCKETS as int)
    }
}

fn bucket(k: &String) -> (r: usize)
    ensures
        r == bucket_of(k@),
        r < BUCKETS,
{
    let cs = chars_of(k.as_str());
    let mut h: usize = 0;
    let mut i: usize = 0;
    while i < cs.len()
        invariant
            i <= cs@.len(),
            h < BUCKETS,
            h == bucket_of(cs@.take(i as int)),
        decreases cs@.len() - i,
    {
        assert(cs@.take(i + 1).drop_last() =~= cs@.take(i as int));
        h = (h * 31 + (cs[i] as u32 % (BUCKETS as u32)) as usize) % BUCKETS;
        i += 1;
    }
    assert(cs@.take(cs@.len() as int) =~= cs@);
    h
}

/// A string-keyed map.
pub struct Table<V> {
    keys: Vec<Vec<String>>,
    vals: Vec<Vec<V>>,
}

impl<V> Table<V> {
    /// Every bucket has a value for each key, and no key twice.
    pub closed spec fn wf(&self) -> bool {
        &&& self.keys@.len() == BUCKETS
        &&& self.vals@.len() == BUCKETS
        &&& forall|b: int| 0 <= b < BUCKETS ==> (#[trigger] self.keys@[b])@.len() == self.vals@[b]@.len()
        &&& forall|b: int, i: int, j: int|
            0 <= b < BUCKETS && 0 <= i < self.keys@[b]@.len() && 0 <= j < self.keys@[b]@.len() && i
                != j ==> (#[trigger] self.keys@[b]@[i])@ != (#[trigger] self.keys@[b]@[j])@
    }

    /// `k` is a key of the table.
    pub closed spec fn has(&self, k: Seq<char>) -> bool {
        exists|i: int|
            0 <= i < self.keys@[bucket_of(k)]@.len() && (#[trigger] self.keys@[bucket_of(k)]@[i])@ == k
    }

    /// The position of `k` in its bucket.
    pub closed spec fn slot(&self, k: Seq<char>) -> int {
        choose|i: int|
            0 <= i < self.keys@[bucket_of(k)]@.len() && (#[trigger] self.keys@[bucket_of(k)]@[i])@ == k
    }

    /// The table as a map from keys to values.
    pub closed spec fn view(&self) -> Map<Seq<char>, V> {
        Map::new(|k: Seq<char>| self.has(k), |k: Seq<char>| self.vals@[bucket_of(k)]@[self.slot(k)])
    }

    /// An empty table.
    pub fn new() -> (r: Self)
        ensures
            r.wf(),
            r@ == Map::<Seq<char>, V>::empty(),
    {
        let mut keys: Vec<Vec<String>> = Vec::new();
        let mut vals: Vec<Vec<V>> = Vec::new();
        let mut b: usize = 0;
        while b < BUCKETS
            invariant
                b <= BUCKETS,
                keys@.len() == b,
                vals@.len() == b,
                forall|c: int| 0 <= c < b ==> (#[trigger] keys@[c])@.len() == 0 && vals@[c]@.len() == 0,
            decreases BUCKETS - b,
        {
            keys.push(Vec::new());
            vals.push(Vec::new());
            b += 1;
        }
        let r = Table { keys, vals };
        assert(r@ =~= Map::<Seq<char>, V>::empty());
        r
    }

    /// The bucket of `k`, and the position of `k` in it.
    fn find(&self, k: &String) -> (r: (usize, Option<usize>))
        requires
            self.wf(),
        ensures
            r.0 == bucket_of(k@),
            r.0 < BUCKETS,
            match r.1 {
                Some(j) => j < self.keys@[r.0 as int]@.len() && self.keys@[r.0 as int]@[j as int]@ == k@
                    && self.slot(k@) == j && self.has(k@),
                None => !self.has(k@),
            },
    {
        let b = bucket(k);
        let ks = &self.keys[b];
        let mut j: usize = 0;
        while j < ks.len()
            invariant
                self.wf(),
                b == bucket_of(k@),
                b < BUCKETS,
                *ks == self.keys@[b as int],
                j <= ks@.len(),
                forall|i: int| 0 <= i < j ==> (#[trigger] ks@[i])@ != k@,
            decreases ks@.len() - j,
        {
            if ks[j] == *k {
                return (b, Some(j));
            }
            j += 1;
        }
        (b, None)
    }

    /// The value under `k`, if any.
    pub fn get(&self, k: &String) -> (r: Option<&V>)
        requires
            self.wf(),
        ensures
            match r {
                Some(v) => self@.contains_key(k@) && *v == self@[k@],
                None => !self@.contains_key(k@),
            },
    {
        match self.find(k) {
            (b, Some(j)) => Some(&self.vals[b][j]),
            (_, None) => None,
        }
    }

    /// Sets the value under `k`, replacing an earlier one.
    pub fn insert(&mut self, k: String, v: V)
        requires
            old(self).wf(),
        ensures
            final(self).wf(),
            final(self)@ == old(self)@.insert(k@, v),
    {
        let (b, found) = self.find(&k);
        let ghost kv = k@;
        match found {
            Some(j) => {
                self.vals[b].set(j, v);
                proof {
                    assert forall|q: Seq<char>| self.has(q) implies self.vals@[bucket_of(q)]@[self.slot(q)]
                        == old(self)@.insert(kv, v)[q] by {
                        assert(old(self).has(q));
                    }
                    assert forall|q: Seq<char>| old(self).has(q) implies self.has(q) by {
                        let i = old(self).slot(q);
                        assert(self.keys@[bucket_of(q)]@[i]@ == q);
                    }
                }
            },
            None => {
                self.keys[b].push(k);
                self.vals[b].push(v);
                proof {
                    let n = old(self).keys@[b as int]@.len() as int;
                    assert(self.keys@[b as int]@[n]@ == kv);
                    assert forall|c: int, i: int, j: int|
                        0 <= c < BUCKETS && 0 <= i < self.keys@[c]@.len() && 0 <= j < self.keys@[c]@.len()
                            && i != j implies (#[trigger] self.keys@[c]@[i])@ != (#[trigger] self.keys@[c]@[j])@ by {
                        if c == b && (i == n || j == n) {
                            if i == n {
                                assert(self.keys@[c]@[j] == old(self).keys@[c]@[j]);
                            } else {
                                assert(self.keys@[c]@[i] == old(self).keys@[c]@[i]);
                            }
                        } else {
                            assert(self.keys@[c]@[i] == old(self).keys@[c]@[i]);
                            assert(self.keys@[c]@[j] == old(self).keys@[c]@[j]);
                        }
                    }
                    assert forall|q: Seq<char>| self.has(q) implies self.vals@[bucket_of(q)]@[self.slot(q)]
                        == old(self)@.insert(kv, v)[q] by {
                        if q != kv {
                            let i = self.slot(q);
                            assert(old(self).keys@[bucket_of(q)]@[i]@ == q);
                        }
                    }
                    assert forall|q: Seq<char>| old(self).has(q) implies self.has(q) by {
                        let i = old(self).slot(q);
                        assert(self.keys@[bucket_of(q)]@[i]@ == q);
                    }
                    assert forall|q: Seq<char>| self.has(q) implies old(self).has(q) || q == kv by {
                        let i = self.slot(q);
                        if i < old(self).keys@[bucket_of(q)]@.len() {
                            assert(old(self).keys@[bucket_of(q)]@[i]@ == q);
                        }
                    }
                }
            },
        }
        assert(self@ =~= old(self)@.insert(kv, v));
    }
}

impl Table<Vec<usize>> {
    /// Appends `i` to the list under `k`, starting that list if there is none.
    pub fn append(&mut self, k: &String, i: usize)
        requires
            old(self).wf(),
        ensures
            final(self).wf(),
            final(self)@ == old(self)@.insert(k@, final(self)@[k@]),
            final(self)@[k@]@ == (if old(self)@.contains_key(k@) {
                old(self)@[k@]@
            } else {
                Seq::empty()
            }).push(i),
    {
        match self.find(k) {
            (b, Some(j)) => {
                self.vals[b][j].push(i);
                proof {
                    let nv = self.vals@[b as int]@[j as int];
                    assert forall|q: Seq<char>| self.has(q) implies self.vals@[bucket_of(q)]@[self.slot(q)]
                        == old(self)@.insert(k@, nv)[q] by {
                        assert(old(self).has(q));
                    }
                    assert forall|q: Seq<char>| old(self).has(q) implies self.has(q) by {
                        let i = old(self).slot(q);
                        assert(self.keys@[bucket_of(q)]@[i]@ == q);
                    }
                    assert(self@ =~= old(self)@.insert(k@, nv));
                }
            },
            (_, None) => {
                let mut v: Vec<usize> = Vec::new();
                v.push(i);
                proof {
                    assert(v@ =~= Seq::<usize>::empty().push(i));
                }
                self.insert(k.clone(), v);
            },
        }
    }
}

} // verus!
