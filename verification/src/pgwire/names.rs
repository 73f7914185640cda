//! A map from names to values, kept as a list of entries with distinct names. The
//! extended query protocol keys prepared statements, portals and their state by name.

use vstd::prelude::*;

use crate::pgwire::message::chars_eq;
use crate::text::chars_of;

verus! {

/// Entry `i` is named `k`.
pub open spec fn named_at<V>(e: Seq<(String, V)>, k: Seq<char>, i: int) -> bool {
    0 <= i < e.len() && e[i].0@ == k
}

pub struct NameMap<V> {
    entries: Vec<(String, V)>,
}

impl<V> NameMap<V> {
    /// Names are distinct.
    pub closed spec fn wf(&self) -> bool {
        forall|i: int, j: int|
            0 <= i < self.entries@.len() && #[trigger] named_at(self.entries@, self.entries@[i].0@, j)
                ==> i == j
    }

    /// The map from names to values.
    pub closed spec fn view(&self) -> Map<Seq<char>, V> {
        Map::new(
            |k: Seq<char>| exists|i: int| named_at(self.entries@, k, i),
            |k: Seq<char>| self.entries@[choose|i: int| named_at(self.entries@, k, i)].1,
        )
    }

    pub fn new() -> (r: Self)
        ensures
            r.wf(),
            r@ == Map::<Seq<char>, V>::empty(),
    {
        let r = NameMap { entries: Vec::new() };
        assert(r@ =~= Map::<Seq<char>, V>::empty());
        r
    }

    /// Index of the entry named `key`.
    fn index_of(&self, key: &str) -> (r: Option<usize>)
        requires
            self.wf(),
        ensures
            match r {
                Some(i) => named_at(self.entries@, key@, i as int) && self@.contains_key(key@) && self@[key@]
                    == self.entries@[i as int].1,
                None => !self@.contains_key(key@),
            },
    {
        let kc = chars_of(key);
        let mut i: usize = 0;
        while i < self.entries.len()
            invariant
                i <= self.entries@.len(),
                kc@ == key@,
                self.wf(),
                forall|j: int| 0 <= j < i ==> !named_at(self.entries@, key@, j),
            decreases self.entries.len() - i,
        {
            if chars_eq(&chars_of(self.entries[i].0.as_str()), &kc) {
                proof {
                    assert(named_at(self.entries@, key@, i as int));
                    let c = choose|j: int| named_at(self.entries@, key@, j);
                    assert(named_at(self.entries@, self.entries@[i as int].0@, c));
                    assert(c == i);
                    assert(self@.contains_key(key@));
                }
                return Some(i);
            }
            i += 1;
        }
        None
    }

    /// The value stored under `key`.
    pub fn get(&self, key: &str) -> (r: Option<&V>)
        requires
            self.wf(),
        ensures
            match r {
                Some(v) => self@.contains_key(key@) && *v == self@[key@],
                None => !self@.contains_key(key@),
            },
    {
        match self.index_of(key) {
            Some(i) => Some(&self.entries[i].1),
            None => None,
        }
    }

    /// Removes the entry under `key`, giving back its value.
    pub fn remove(&mut self, key: &str) -> (r: Option<V>)
        requires
            old(self).wf(),
        ensures
            final(self).wf(),
            final(self)@ == old(self)@.remove(key@),
            match r {
                Some(v) => old(self)@.contains_key(key@) && v == old(self)@[key@],
                None => !old(self)@.contains_key(key@),
            },
    {
        match self.index_of(key) {
            None => {
                assert(self@ =~= old(self)@.remove(key@));
                None
            },
            Some(i) => {
                let ghost e = self.entries@;
                let (_, v) = self.entries.remove(i);
                proof {
                    let n = self.entries@;
                    assert(n =~= e.remove(i as int));
                    assert forall|a: int, b: int|
                        0 <= a < n.len() && #[trigger] named_at(n, n[a].0@, b) implies a == b by {
                        let oa = if a < i { a } else { a + 1 };
                        let ob = if b < i { b } else { b + 1 };
                        assert(named_at(e, e[oa].0@, ob));
                    }
                    assert forall|k: Seq<char>| #[trigger] self@.contains_key(k) <==> old(self)@.remove(key@).contains_key(k) by {
                        if self@.contains_key(k) {
                            let j = choose|j: int| named_at(n, k, j);
                            let oj = if j < i { j } else { j + 1 };
                            assert(named_at(e, k, oj));
                            if k == key@ {
                                assert(named_at(e, e[i as int].0@, oj));
                            }
                        }
                        if old(self)@.remove(key@).contains_key(k) {
                            let j = choose|j: int| named_at(e, k, j);
                            assert(j != i);
                            let nj = if j < i { j } else { j - 1 };
                            assert(named_at(n, k, nj));
                        }
                    }
                    assert forall|k: Seq<char>| #[trigger] self@.contains_key(k) implies self@[k] == old(self)@.remove(key@)[k] by {
                        let j = choose|j: int| named_at(n, k, j);
                        let oj = if j < i { j } else { j + 1 };
                        assert(named_at(e, k, oj));
                        let c = choose|c: int| named_at(e, k, c);
                        assert(named_at(e, e[oj].0@, c));
                    }
                    assert(self@ =~= old(self)@.remove(key@));
                }
                Some(v)
            },
        }
    }

    /// Stores `value` under `key`, replacing any value stored there.
    pub fn insert(&mut self, key: String, value: V)
        requires
            old(self).wf(),
        ensures
            final(self).wf(),
            final(self)@ == old(self)@.insert(key@, value),
    {
        let _ = self.remove(key.as_str());
        let ghost e = self.entries@;
        let ghost m = self@;
        let ghost kv = key@;
        self.entries.push((key, value));
        proof {
            let n = self.entries@;
            assert(n =~= e.push((key, value)));
            assert(!m.contains_key(kv));
            assert forall|a: int, b: int|
                0 <= a < n.len() && #[trigger] named_at(n, n[a].0@, b) implies a == b by {
                if a < e.len() && b < e.len() {
                    assert(named_at(e, e[a].0@, b));
                } else if a < e.len() {
                    assert(named_at(e, kv, a));
                    assert(m.contains_key(kv));
                } else if b < e.len() {
                    assert(named_at(e, kv, b));
                    assert(m.contains_key(kv));
                }
            }
            assert forall|k: Seq<char>| #[trigger] self@.contains_key(k) <==> m.insert(kv, value).contains_key(k) by {
                if k == kv {
                    assert(named_at(n, k, e.len() as int));
                } else if m.contains_key(k) {
                    let j = choose|j: int| named_at(e, k, j);
                    assert(named_at(n, k, j));
                } else if self@.contains_key(k) {
                    let j = choose|j: int| named_at(n, k, j);
                    assert(named_at(e, k, j));
                }
            }
            assert forall|k: Seq<char>| #[trigger] self@.contains_key(k) implies self@[k] == m.insert(kv, value)[k] by {
                let j = choose|j: int| named_at(n, k, j);
                if k == kv {
                    assert(named_at(n, n[e.len() as int].0@, j));
                } else {
                    assert(named_at(e, k, j));
                    let c = choose|c: int| named_at(e, k, c);
                    assert(named_at(e, e[j].0@, c));
                }
            }
            assert(self@ =~= m.insert(kv, value));
            assert(m.insert(kv, value) =~= old(self)@.insert(kv, value));
        }
    }
}

} // verus!
