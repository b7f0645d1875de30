//! A map from text keys to values that remembers the order of insertion.

use crate::text::views;
use vstd::prelude::*;

verus! {

/// A map keyed by text. Keys are kept in the order in which they first came;
/// no key occurs twice.
#[derive(Debug, PartialEq, Eq)]
pub struct StrMap<V> {
    pub keys: Vec<String>,
    pub vals: Vec<V>,
}

impl<V> StrMap<V> {
    /// As many values as keys, and no key twice.
    pub open spec fn wf(&self) -> bool {
        &&& self.keys.len() == self.vals.len()
        &&& forall|i: int, j: int|
            0 <= i < j < self.keys.len() ==> self.keys[i]@ != self.keys[j]@
    }

    /// The keys, in order of insertion.
    pub open spec fn spec_keys(&self) -> Seq<Seq<char>> {
        views(self.keys@)
    }

    /// Whether the key is present.
    pub open spec fn has(&self, key: Seq<char>) -> bool {
        self.spec_keys().contains(key)
    }

    /// The position of a key that is present.
    pub open spec fn index_of(&self, key: Seq<char>) -> int {
        self.spec_keys().index_of(key)
    }

    /// The value under a key that is present.
    pub open spec fn value(&self, key: Seq<char>) -> V {
        self.vals[self.index_of(key)]
    }

    /// A present key stands at exactly one position.
    pub proof fn lemma_index(&self, i: int)
        requires
            self.wf(),
            0 <= i < self.keys.len(),
        ensures
            self.has(self.keys[i]@),
            self.index_of(self.keys[i]@) == i,
            self.value(self.keys[i]@) == self.vals[i],
    {
        let ks = self.spec_keys();
        assert(ks[i] == self.keys[i]@);
        let j = ks.index_of(self.keys[i]@);
        assert(0 <= j < ks.len() && ks[j] == self.keys[i]@);
        if j < i {
            assert(self.keys[j]@ != self.keys[i]@);
        } else if i < j {
            assert(self.keys[i]@ != self.keys[j]@);
        }
    }

    /// An empty map.
    pub fn new() -> (m: Self)
        ensures
            m.wf(),
            m.keys@.len() == 0,
            m.vals@.len() == 0,
    {
        StrMap { keys: Vec::new(), vals: Vec::new() }
    }

    /// Whether there are as many values as keys, and no key twice.
    pub fn is_wf(&self) -> (r: bool)
        ensures
            r == self.wf(),
    {
        if self.keys.len() != self.vals.len() {
            return false;
        }
        let mut j: usize = 0;
        while j < self.keys.len()
            invariant
                j <= self.keys.len(),
                forall|a: int, b: int| 0 <= a < b < j ==> self.keys[a]@ != self.keys[b]@,
            decreases self.keys.len() - j,
        {
            let mut i: usize = 0;
            while i < j
                invariant
                    i <= j < self.keys.len(),
                    forall|a: int| 0 <= a < i ==> self.keys[a]@ != self.keys[j as int]@,
                decreases j - i,
            {
                if str_same(self.keys[i].as_str(), self.keys[j].as_str()) {
                    return false;
                }
                i += 1;
            }
            j += 1;
        }
        true
    }

    /// The number of keys.
    pub fn len(&self) -> (n: usize)
        requires
            self.wf(),
        ensures
            n == self.keys.len(),
    {
        self.keys.len()
    }

    /// The position of a key, if it is present.
    pub fn position(&self, key: &str) -> (r: Option<usize>)
        requires
            self.wf(),
        ensures
            r is Some <==> self.has(key@),
            r matches Some(i) ==> i < self.keys.len() && self.keys[i as int]@ == key@ && i
                == self.index_of(key@),
    {
        let mut i: usize = 0;
        while i < self.keys.len()
            invariant
                i <= self.keys.len(),
                self.wf(),
                forall|j: int| 0 <= j < i ==> self.keys[j]@ != key@,
            decreases self.keys.len() - i,
        {
            if str_same(self.keys[i].as_str(), key) {
                proof {
                    self.lemma_index(i as int);
                }
                return Some(i);
            }
            i += 1;
        }
        proof {
            let ks = self.spec_keys();
            if ks.contains(key@) {
                let j = choose|j: int| 0 <= j < ks.len() && ks[j] == key@;
                assert(self.keys[j]@ != key@);
            }
        }
        None
    }

    /// Whether the key is present.
    pub fn contains_key(&self, key: &str) -> (r: bool)
        requires
            self.wf(),
        ensures
            r == self.has(key@),
    {
        self.position(key).is_some()
    }

    /// The value under a key, if it is present.
    pub fn get(&self, key: &str) -> (r: Option<&V>)
        requires
            self.wf(),
        ensures
            r is Some <==> self.has(key@),
            r matches Some(v) ==> *v == self.value(key@),
    {
        match self.position(key) {
            Some(i) => Some(&self.vals[i]),
            None => None,
        }
    }

    /// Puts a value under a key: in place of the value that the key had, or
    /// with the key added after the others.
    pub fn insert(&mut self, key: String, val: V)
        requires
            old(self).wf(),
        ensures
            final(self).wf(),
            old(self).has(key@) ==> final(self).spec_keys() == old(self).spec_keys()
                && final(self).vals@ == old(self).vals@.update(old(self).index_of(key@), val),
            !old(self).has(key@) ==> final(self).spec_keys() == old(self).spec_keys().push(key@)
                && final(self).vals@ == old(self).vals@.push(val),
            final(self).has(key@),
            final(self).value(key@) == val,
            forall|k: Seq<char>| final(self).has(k) <==> old(self).has(k) || k == key@,
            forall|k: Seq<char>|
                old(self).has(k) && k != key@ ==> final(self).value(k) == old(self).value(k),
    {
        match self.position(key.as_str()) {
            Some(i) => {
                self.vals.set(i, val);
                proof {
                    assert(self.spec_keys() =~= old(self).spec_keys());
                    self.lemma_index(i as int);
                }
            },
            None => {
                self.keys.push(key);
                self.vals.push(val);
                proof {
                    let before = old(self).spec_keys();
                    let after = self.spec_keys();
                    assert(after =~= before.push(key@));
                    assert forall|i: int, j: int| 0 <= i < j < self.keys.len() implies self.keys[i]@
                        != self.keys[j]@ by {
                        if j == self.keys.len() - 1 {
                            assert(before[i] == old(self).keys[i]@);
                        }
                    }
                    self.lemma_index(self.keys.len() - 1);
                    assert forall|k: Seq<char>| self.has(k) <==> old(self).has(k) || k == key@ by {
                        if self.has(k) {
                            let j = choose|j: int| 0 <= j < after.len() && after[j] == k;
                            if j < before.len() {
                                assert(before[j] == k);
                            }
                        }
                        if old(self).has(k) {
                            let j = choose|j: int| 0 <= j < before.len() && before[j] == k;
                            assert(after[j] == k);
                        }
                    }
                    assert forall|k: Seq<char>| old(self).has(k) && k != key@ implies self.value(k)
                        == old(self).value(k) by {
                        let j = before.index_of(k);
                        assert(0 <= j < before.len() && before[j] == k);
                        assert(before[j] == old(self).keys[j]@);
                        old(self).lemma_index(j);
                        self.lemma_index(j);
                    }
                }
            },
        }
    }
}

/// Whether two strings hold the same text.
pub fn str_same(a: &str, b: &str) -> (r: bool)
    ensures
        r == (a@ == b@),
{
    let va = crate::text::chars_of(a);
    let vb = crate::text::chars_of(b);
    crate::text::chars_eq(&va, &vb)
}

} // verus!
