//! Lists of values grouped under string keys, kept in key order: the shape
//! of a `BTreeMap<String, Vec<V>>`, held as a sorted vector so that its
//! contents can be stated exactly.

use vstd::prelude::*;
use crate::text::{lex_lt, lex_less, to_chars, lemma_lex_irreflexive, lemma_lex_transitive,
    lemma_lex_total, lemma_lex_asymmetric};

verus! {

pub open spec fn key_of<V>(s: Seq<(String, Vec<V>)>, i: int) -> Seq<char> {
    s[i].0@
}

/// Keys strictly increase, so each key occurs once.
pub open spec fn entries_sorted<V>(s: Seq<(String, Vec<V>)>) -> bool {
    forall|i: int, j: int| 0 <= i < j < s.len() ==> lex_lt(#[trigger] key_of(s, i), #[trigger] key_of(s, j))
}

pub open spec fn entries_has_key<V>(s: Seq<(String, Vec<V>)>, k: Seq<char>) -> bool {
    exists|i: int| 0 <= i < s.len() && key_of(s, i) == k
}

pub open spec fn entries_position<V>(s: Seq<(String, Vec<V>)>, k: Seq<char>) -> int {
    choose|i: int| 0 <= i < s.len() && key_of(s, i) == k
}

/// The values listed under `k`; empty where `k` is absent.
pub open spec fn entries_values<V>(s: Seq<(String, Vec<V>)>, k: Seq<char>) -> Seq<V> {
    if entries_has_key(s, k) {
        s[entries_position(s, k)].1@
    } else {
        seq![]
    }
}

pub proof fn lemma_sorted_position<V>(s: Seq<(String, Vec<V>)>, i: int)
    requires
        entries_sorted(s),
        0 <= i < s.len(),
    ensures
        entries_has_key(s, key_of(s, i)),
        entries_position(s, key_of(s, i)) == i,
        entries_values(s, key_of(s, i)) == s[i].1@,
{
    let k = key_of(s, i);
    assert(entries_has_key(s, k));
    let p = entries_position(s, k);
    if p < i {
        assert(lex_lt(key_of(s, p), key_of(s, i)));
        lemma_lex_irreflexive(k);
    } else if p > i {
        assert(lex_lt(key_of(s, i), key_of(s, p)));
        lemma_lex_irreflexive(k);
    }
}

/// Values grouped by key, in key order.
pub struct KeyedLists<V> {
    pub entries: Vec<(String, Vec<V>)>,
}

impl<V> KeyedLists<V> {
    pub open spec fn sorted(&self) -> bool {
        entries_sorted(self.entries@)
    }

    pub open spec fn has_key(&self, k: Seq<char>) -> bool {
        entries_has_key(self.entries@, k)
    }

    pub open spec fn values_for(&self, k: Seq<char>) -> Seq<V> {
        entries_values(self.entries@, k)
    }

    pub fn new() -> (r: Self)
        ensures
            r.entries@.len() == 0,
            r.sorted(),
    {
        KeyedLists { entries: Vec::new() }
    }

    /// The number of keys.
    pub fn len(&self) -> (r: usize)
        ensures
            r == self.entries@.len(),
    {
        self.entries.len()
    }

    pub fn is_empty(&self) -> (r: bool)
        ensures
            r == (self.entries@.len() == 0),
    {
        self.entries.len() == 0
    }

    /// The key at position `i` in key order.
    pub fn key_at(&self, i: usize) -> (r: &String)
        requires
            i < self.entries@.len(),
        ensures
            r@ == key_of(self.entries@, i as int),
    {
        &self.entries[i].0
    }

    /// The values listed under the key at position `i`.
    pub fn values_at(&self, i: usize) -> (r: &Vec<V>)
        requires
            i < self.entries@.len(),
        ensures
            r@ == self.entries@[i as int].1@,
    {
        &self.entries[i].1
    }

    fn find(&self, key: &str) -> (r: usize)
        requires
            self.sorted(),
        ensures
            r <= self.entries@.len(),
            r < self.entries@.len() ==> key_of(self.entries@, r as int) == key@,
            r == self.entries@.len() ==> !self.has_key(key@),
    {
        let kc = to_chars(key);
        let n = self.entries.len();
        let mut i: usize = 0;
        while i < n && !crate::text::same_chars(&to_chars(self.entries[i].0.as_str()), &kc)
            invariant
                i <= n == self.entries@.len(),
                kc@ == key@,
                forall|j: int| 0 <= j < i ==> key_of(self.entries@, j) != key@,
            decreases n - i,
        {
            i = i + 1;
        }
        i
    }

    /// The values listed under `key`, if it is present.
    pub fn get(&self, key: &str) -> (r: Option<&Vec<V>>)
        requires
            self.sorted(),
        ensures
            r is Some <==> self.has_key(key@),
            r matches Some(v) ==> v@ == self.values_for(key@),
    {
        let i = self.find(key);
        if i < self.entries.len() {
            proof {
                lemma_sorted_position(self.entries@, i as int);
            }
            Some(&self.entries[i].1)
        } else {
            None
        }
    }

    pub fn contains_key(&self, key: &str) -> (r: bool)
        requires
            self.sorted(),
        ensures
            r == self.has_key(key@),
    {
        self.find(key) < self.entries.len()
    }

    /// Adds `value` at the end of the list under `key`, creating the key in
    /// its place in key order when it is new.
    pub fn push_value(&mut self, key: &String, value: V)
        requires
            old(self).sorted(),
        ensures
            final(self).sorted(),
            forall|k: Seq<char>| #[trigger] final(self).has_key(k) == (old(self).has_key(k) || k == key@),
            final(self).values_for(key@) == old(self).values_for(key@).push(value),
            forall|k: Seq<char>| k != key@ ==> #[trigger] final(self).values_for(k) == old(self).values_for(k),
    {
        let kc = to_chars(key.as_str());
        let n = self.entries.len();
        let mut i: usize = 0;
        while i < n && lex_less(&to_chars(self.entries[i].0.as_str()), &kc)
            invariant
                i <= n == self.entries@.len(),
                kc@ == key@,
                forall|j: int| 0 <= j < i ==> lex_lt(#[trigger] key_of(self.entries@, j), key@),
            decreases n - i,
        {
            i = i + 1;
        }
        let ghost s0 = self.entries@;
        if i < n && self.entries[i].0 == *key {
            let (k0, mut vals) = self.entries.remove(i);
            vals.push(value);
            self.entries.insert(i, (k0, vals));
            proof {
                let s1 = self.entries@;
                assert(s1 =~= s0.update(i as int, (k0, vals)));
                assert forall|a: int, b: int| 0 <= a < b < s1.len() implies lex_lt(
                    #[trigger] key_of(s1, a),
                    #[trigger] key_of(s1, b),
                ) by {
                    assert(key_of(s1, a) == key_of(s0, a));
                    assert(key_of(s1, b) == key_of(s0, b));
                }
                assert forall|k: Seq<char>| #[trigger] entries_has_key(s1, k) == entries_has_key(s0, k) by {
                    if entries_has_key(s0, k) {
                        let p = entries_position(s0, k);
                        assert(key_of(s1, p) == k);
                    }
                    if entries_has_key(s1, k) {
                        let p = entries_position(s1, k);
                        assert(key_of(s0, p) == k);
                    }
                }
                lemma_sorted_position(s0, i as int);
                lemma_sorted_position(s1, i as int);
                assert forall|k: Seq<char>| k != key@ implies #[trigger] entries_values(s1, k)
                    == entries_values(s0, k) by {
                    if entries_has_key(s0, k) {
                        let p = entries_position(s0, k);
                        lemma_sorted_position(s0, p);
                        lemma_sorted_position(s1, p);
                    }
                }
            }
        } else {
            let ghost k_new = key@;
            let mut vals: Vec<V> = Vec::new();
            vals.push(value);
            self.entries.insert(i, (key.clone(), vals));
            proof {
                let s1 = self.entries@;
                assert(key_of(s1, i as int) == k_new);
                // every key from position i on lies after the new key
                assert forall|j: int| i <= j < s0.len() implies lex_lt(k_new, #[trigger] key_of(s0, j)) by {
                    lemma_lex_total(key_of(s0, i as int), k_new);
                    if j > i {
                        lemma_lex_transitive(k_new, key_of(s0, i as int), key_of(s0, j));
                    }
                }
                assert forall|j: int| 0 <= j < s0.len() implies key_of(s0, j) != k_new by {
                    if j < i {
                        lemma_lex_asymmetric(key_of(s0, j), k_new);
                    } else {
                        lemma_lex_asymmetric(k_new, key_of(s0, j));
                    }
                }
                assert forall|j: int| 0 <= j < s1.len() implies #[trigger] key_of(s1, j) == (if j < i {
                    key_of(s0, j)
                } else if j == i {
                    k_new
                } else {
                    key_of(s0, j - 1)
                }) by {}
                assert forall|a: int, b: int| 0 <= a < b < s1.len() implies lex_lt(
                    #[trigger] key_of(s1, a),
                    #[trigger] key_of(s1, b),
                ) by {
                    if b < i {
                    } else if b == i {
                    } else if a < i {
                        lemma_lex_transitive(key_of(s0, a), k_new, key_of(s0, b - 1));
                    } else if a == i {
                    } else {
                        assert(key_of(s1, a) == key_of(s0, a - 1));
                        assert(key_of(s1, b) == key_of(s0, b - 1));
                    }
                }
                assert(!entries_has_key(s0, k_new));
                assert forall|k: Seq<char>| #[trigger] entries_has_key(s1, k) == (entries_has_key(s0, k)
                    || k == k_new) by {
                    if entries_has_key(s0, k) {
                        let p = entries_position(s0, k);
                        if p < i {
                            assert(key_of(s1, p) == k);
                        } else {
                            assert(key_of(s1, p + 1) == k);
                        }
                    }
                    if entries_has_key(s1, k) && k != k_new {
                        let p = entries_position(s1, k);
                        if p < i {
                            assert(key_of(s0, p) == k);
                        } else {
                            assert(key_of(s0, p - 1) == k);
                        }
                    }
                }
                lemma_sorted_position(s1, i as int);
                assert(s1[i as int].1@ =~= seq![value]);
                assert(entries_values(s0, k_new) =~= seq![]);
                assert forall|k: Seq<char>| k != k_new implies #[trigger] entries_values(s1, k)
                    == entries_values(s0, k) by {
                    if entries_has_key(s0, k) {
                        let p = entries_position(s0, k);
                        lemma_sorted_position(s0, p);
                        if p < i {
                            lemma_sorted_position(s1, p);
                        } else {
                            lemma_sorted_position(s1, p + 1);
                        }
                    }
                }
            }
        }
    }
}

} // verus!
