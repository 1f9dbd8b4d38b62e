//! A map with string keys, kept as a vector of entries sorted strictly by
//! `lex_lt`. Keys are unique by construction and iteration order is the key
//! order, which makes every walk over the map deterministic.

use vstd::prelude::*;

verus! {

use crate::strorder::{lex_lt, lemma_lex_lt_trichotomy, lemma_lex_lt_transitive, str_cmp_lt, str_eq};

pub struct OrdMap<V> {
    entries: Vec<(String, V)>,
}

impl<V> OrdMap<V> {
    /// The entries as a sequence of key view / value pairs, in storage order.
    pub closed spec fn entry_seq(&self) -> Seq<(Seq<char>, V)> {
        self.entries@.map(|i: int, e: (String, V)| (e.0@, e.1))
    }

    /// Well-formed: keys strictly ascending under `lex_lt`.
    pub open spec fn wf(&self) -> bool {
        forall|i: int, j: int|
            0 <= i < j < self.entry_seq().len() ==> lex_lt(
                #[trigger] self.entry_seq()[i].0,
                #[trigger] self.entry_seq()[j].0,
            )
    }

    pub open spec fn spec_len(&self) -> nat {
        self.entry_seq().len()
    }

    pub open spec fn contains_sk(&self, k: Seq<char>) -> bool {
        exists|i: int| 0 <= i < self.entry_seq().len() && self.entry_seq()[i].0 == k
    }

    pub open spec fn index_of(&self, k: Seq<char>) -> int {
        choose|i: int| 0 <= i < self.entry_seq().len() && self.entry_seq()[i].0 == k
    }

    pub open spec fn spec_get(&self, k: Seq<char>) -> V {
        self.entry_seq()[self.index_of(k)].1
    }

    /// Bridges an entry of the backing vector to the entry sequence.
    proof fn lemma_entry_at(&self, i: int)
        requires
            0 <= i < self.entries@.len(),
        ensures
            self.entry_seq().len() == self.entries@.len(),
            self.entry_seq()[i] == (self.entries@[i].0@, self.entries@[i].1),
    {
    }

    /// In a well-formed map each key occurs at most once.
    pub proof fn lemma_key_unique(&self, i: int, j: int)
        requires
            self.wf(),
            0 <= i < self.entry_seq().len(),
            0 <= j < self.entry_seq().len(),
            self.entry_seq()[i].0 == self.entry_seq()[j].0,
        ensures
            i == j,
    {
        if i < j {
            lemma_lex_lt_trichotomy(self.entry_seq()[i].0, self.entry_seq()[j].0);
        } else if j < i {
            lemma_lex_lt_trichotomy(self.entry_seq()[j].0, self.entry_seq()[i].0);
        }
    }

    /// The entry a key occurs at, in a well-formed map.
    pub proof fn lemma_index_of(&self, k: Seq<char>)
        requires
            self.wf(),
            self.contains_sk(k),
        ensures
            0 <= self.index_of(k) < self.entry_seq().len(),
            self.entry_seq()[self.index_of(k)].0 == k,
            forall|i: int|
                0 <= i < self.entry_seq().len() && self.entry_seq()[i].0 == k ==> i == self.index_of(
                    k,
                ),
    {
        let w = choose|i: int| 0 <= i < self.entry_seq().len() && self.entry_seq()[i].0 == k;
        assert forall|i: int|
            0 <= i < self.entry_seq().len() && self.entry_seq()[i].0 == k implies i == self.index_of(
            k,
        ) by {
            self.lemma_key_unique(i, self.index_of(k));
        }
    }

    /// Each entry is in the map view, bound to its value.
    pub proof fn lemma_entry_consistent(&self, i: int)
        requires
            self.wf(),
            0 <= i < self.entry_seq().len(),
        ensures
            self@.contains_key(self.entry_seq()[i].0),
            self@[self.entry_seq()[i].0] == self.entry_seq()[i].1,
    {
        assert(self.contains_sk(self.entry_seq()[i].0));
        self.lemma_index_of(self.entry_seq()[i].0);
    }

    pub fn new() -> (r: Self)
        ensures
            r.wf(),
            r.entry_seq() =~= Seq::<(Seq<char>, V)>::empty(),
            r@ =~= Map::<Seq<char>, V>::empty(),
    {
        let r = OrdMap { entries: Vec::new() };
        proof {
            assert(r.entry_seq() =~= Seq::<(Seq<char>, V)>::empty());
        }
        r
    }

    pub fn len(&self) -> (r: usize)
        ensures
            r == self.spec_len(),
    {
        self.entries.len()
    }

    pub fn key_at(&self, i: usize) -> (r: &str)
        requires
            i < self.spec_len(),
        ensures
            r@ == self.entry_seq()[i as int].0,
    {
        self.entries[i].0.as_str()
    }

    pub fn value_at(&self, i: usize) -> (r: &V)
        requires
            i < self.spec_len(),
        ensures
            *r == self.entry_seq()[i as int].1,
    {
        &self.entries[i].1
    }

    pub fn contains(&self, key: &str) -> (r: bool)
        ensures
            r == self.contains_sk(key@),
    {
        let n = self.entries.len();
        let mut i: usize = 0;
        while i < n
            invariant
                i <= n,
                n == self.spec_len(),
                forall|j: int| 0 <= j < i ==> self.entry_seq()[j].0 != key@,
            decreases n - i,
        {
            proof {
                self.lemma_entry_at(i as int);
            }
            if str_eq(self.entries[i].0.as_str(), key) {
                return true;
            }
            i = i + 1;
        }
        false
    }

    pub fn get(&self, key: &str) -> (r: Option<&V>)
        requires
            self.wf(),
        ensures
            match r {
                Some(v) => self.contains_sk(key@) && *v == self.spec_get(key@),
                None => !self.contains_sk(key@),
            },
    {
        let n = self.entries.len();
        let mut i: usize = 0;
        while i < n
            invariant
                i <= n,
                n == self.spec_len(),
                self.wf(),
                forall|j: int| 0 <= j < i ==> self.entry_seq()[j].0 != key@,
            decreases n - i,
        {
            proof {
                self.lemma_entry_at(i as int);
            }
            if str_eq(self.entries[i].0.as_str(), key) {
                proof {
                    self.lemma_index_of(key@);
                }
                return Some(&self.entries[i].1);
            }
            i = i + 1;
        }
        None
    }

    /// Inserts a pair, replacing the value when the key is already present.
    pub fn insert(&mut self, key: String, value: V)
        requires
            old(self).wf(),
        ensures
            final(self).wf(),
            final(self)@ =~= old(self)@.insert(key@, value),
            final(self).contains_sk(key@),
    {
        let n = self.entries.len();
        let mut i: usize = 0;
        while i < n && str_cmp_lt(self.entries[i].0.as_str(), key.as_str())
            invariant
                i <= n,
                n == self.spec_len(),
                old(self).wf(),
                self == old(self),
                forall|j: int| 0 <= j < i ==> lex_lt(#[trigger] self.entry_seq()[j].0, key@),
            decreases n - i,
        {
            proof {
                self.lemma_entry_at(i as int);
            }
            i = i + 1;
        }
        proof {
            if i < n {
                self.lemma_entry_at(i as int);
            }
            assert forall|j: int| i <= j < n implies !lex_lt(
                #[trigger] self.entry_seq()[j].0,
                key@,
            ) by {
                if j > i {
                    if lex_lt(self.entry_seq()[j].0, key@) {
                        lemma_lex_lt_transitive(
                            self.entry_seq()[i as int].0,
                            self.entry_seq()[j].0,
                            key@,
                        );
                    }
                }
            }
        }
        if i < n && str_eq(self.entries[i].0.as_str(), key.as_str()) {
            proof {
                self.lemma_entry_at(i as int);
                self.lemma_index_of(key@);
            }
            self.entries.remove(i);
            self.entries.insert(i, (key, value));
            proof {
                assert(self.entry_seq() =~= old(self).entry_seq().update(i as int, (key@, value)));
                self.lemma_after_update(old(self), i as int, key@, value);
            }
        } else {
            proof {
                if self.contains_sk(key@) {
                    self.lemma_index_of(key@);
                    let w = self.index_of(key@);
                    lemma_lex_lt_trichotomy(self.entry_seq()[w].0, key@);
                    assert(false);
                }
            }
            self.entries.insert(i, (key, value));
            proof {
                assert(self.entry_seq() =~= old(self).entry_seq().insert(i as int, (key@, value)));
                self.lemma_after_insert(old(self), i as int, key@, value);
            }
        }
    }

    /// After replacing the value at the key's slot, the map view is the old
    /// view with the key re-bound, and well-formedness is kept.
    proof fn lemma_after_update(&self, prev: &Self, at: int, k: Seq<char>, v: V)
        requires
            prev.wf(),
            0 <= at < prev.entry_seq().len(),
            prev.entry_seq()[at].0 == k,
            self.entry_seq() == prev.entry_seq().update(at, (k, v)),
        ensures
            self.wf(),
            self@ =~= prev@.insert(k, v),
            self.contains_sk(k),
    {
        assert(self.entry_seq()[at].0 == k);
        assert forall|m: Seq<char>| self.contains_sk(m) implies (m == k || prev.contains_sk(m)) by {
            let i = choose|i: int|
                0 <= i < self.entry_seq().len() && self.entry_seq()[i].0 == m;
            if i != at {
                assert(prev.entry_seq()[i].0 == m);
            }
        }
        assert forall|m: Seq<char>| prev.contains_sk(m) implies self.contains_sk(m) by {
            let i = choose|i: int|
                0 <= i < prev.entry_seq().len() && prev.entry_seq()[i].0 == m;
            if i == at {
                assert(self.entry_seq()[at].0 == m);
            } else {
                assert(self.entry_seq()[i].0 == m);
            }
        }
        assert forall|m: Seq<char>| self.contains_sk(m) && m != k implies self.spec_get(m)
            == prev.spec_get(m) by {
            self.lemma_index_of(m);
            prev.lemma_index_of(m);
            let i = self.index_of(m);
            assert(prev.entry_seq()[i].0 == m);
        }
        self.lemma_index_of(k);
        assert(self.spec_get(k) == v);
    }

    /// After inserting a fresh key at its sorted position, the map view is
    /// the old view with the key bound, and well-formedness is kept.
    proof fn lemma_after_insert(&self, prev: &Self, at: int, k: Seq<char>, v: V)
        requires
            prev.wf(),
            0 <= at <= prev.entry_seq().len(),
            forall|j: int| 0 <= j < at ==> lex_lt(#[trigger] prev.entry_seq()[j].0, k),
            forall|j: int|
                at <= j < prev.entry_seq().len() ==> !lex_lt(#[trigger] prev.entry_seq()[j].0, k),
            !prev.contains_sk(k),
            self.entry_seq() == prev.entry_seq().insert(at, (k, v)),
        ensures
            self.wf(),
            self@ =~= prev@.insert(k, v),
            self.contains_sk(k),
    {
        let es = self.entry_seq();
        let ps = prev.entry_seq();
        assert(es[at].0 == k);
        assert forall|j: int| at < j < es.len() implies lex_lt(k, #[trigger] es[j].0) by {
            assert(es[j] == ps[j - 1]);
            lemma_lex_lt_trichotomy(ps[j - 1].0, k);
            assert(ps[j - 1].0 != k);
        }
        assert forall|i: int, j: int| 0 <= i < j < es.len() implies lex_lt(
            #[trigger] es[i].0,
            #[trigger] es[j].0,
        ) by {
            if i < at && j < at {
                assert(es[i] == ps[i] && es[j] == ps[j]);
            } else if i < at && j == at {
                assert(es[i] == ps[i]);
            } else if i < at && j > at {
                assert(es[i] == ps[i] && es[j] == ps[j - 1]);
                lemma_lex_lt_transitive(es[i].0, k, es[j].0);
            } else if i == at && j > at {
            } else if i > at && j > at {
                assert(es[i] == ps[i - 1] && es[j] == ps[j - 1]);
            }
        }
        assert forall|m: Seq<char>| self.contains_sk(m) implies (m == k || prev.contains_sk(m)) by {
            let i = choose|i: int| 0 <= i < es.len() && es[i].0 == m;
            if i < at {
                assert(ps[i].0 == m);
            } else if i > at {
                assert(ps[i - 1].0 == m);
            }
        }
        assert forall|m: Seq<char>| prev.contains_sk(m) implies self.contains_sk(m) by {
            let i = choose|i: int| 0 <= i < ps.len() && ps[i].0 == m;
            if i < at {
                assert(es[i].0 == m);
            } else {
                assert(es[i + 1].0 == m);
            }
        }
        assert forall|m: Seq<char>| self.contains_sk(m) && m != k implies self.spec_get(m)
            == prev.spec_get(m) by {
            self.lemma_index_of(m);
            prev.lemma_index_of(m);
            let i = self.index_of(m);
            if i < at {
                assert(ps[i].0 == m && ps[i].1 == es[i].1);
            } else {
                assert(i > at);
                assert(ps[i - 1].0 == m && ps[i - 1].1 == es[i].1);
            }
        }
        self.lemma_index_of(k);
        assert(self.spec_get(k) == v);
    }

    /// Removes a key and returns its value, when present.
    pub fn remove(&mut self, key: &str) -> (r: Option<V>)
        requires
            old(self).wf(),
        ensures
            final(self).wf(),
            final(self)@ =~= old(self)@.remove(key@),
            match r {
                Some(v) => old(self).contains_sk(key@) && v == old(self).spec_get(key@),
                None => !old(self).contains_sk(key@) && *final(self) == *old(self),
            },
    {
        let n = self.entries.len();
        let mut i: usize = 0;
        while i < n
            invariant
                i <= n,
                n == self.spec_len(),
                old(self).wf(),
                self == old(self),
                forall|j: int| 0 <= j < i ==> self.entry_seq()[j].0 != key@,
            decreases n - i,
        {
            proof {
                self.lemma_entry_at(i as int);
            }
            if str_eq(self.entries[i].0.as_str(), key) {
                proof {
                    self.lemma_index_of(key@);
                }
                let (_, v) = self.entries.remove(i);
                proof {
                    assert(self.entry_seq() =~= old(self).entry_seq().remove(i as int));
                    self.lemma_after_remove(old(self), i as int, key@);
                }
                return Some(v);
            }
            i = i + 1;
        }
        proof {
            assert(self@ =~= old(self)@.remove(key@));
        }
        None
    }

    /// After removing the key's slot, the map view is the old view without
    /// the key, and well-formedness is kept.
    proof fn lemma_after_remove(&self, prev: &Self, at: int, k: Seq<char>)
        requires
            prev.wf(),
            0 <= at < prev.entry_seq().len(),
            prev.entry_seq()[at].0 == k,
            self.entry_seq() == prev.entry_seq().remove(at),
        ensures
            self.wf(),
            self@ =~= prev@.remove(k),
    {
        let es = self.entry_seq();
        let ps = prev.entry_seq();
        assert forall|i: int, j: int| 0 <= i < j < es.len() implies lex_lt(
            #[trigger] es[i].0,
            #[trigger] es[j].0,
        ) by {
            let pi: int = if i < at { i } else { i + 1 };
            let pj: int = if j < at { j } else { j + 1 };
            assert(es[i] == ps[pi] && es[j] == ps[pj]);
        }
        assert forall|m: Seq<char>| self.contains_sk(m) implies (prev.contains_sk(m) && m != k) by {
            let i = choose|i: int| 0 <= i < es.len() && es[i].0 == m;
            let pi: int = if i < at { i } else { i + 1 };
            assert(ps[pi].0 == m);
            if m == k {
                prev.lemma_key_unique(pi, at);
            }
        }
        assert forall|m: Seq<char>| prev.contains_sk(m) && m != k implies self.contains_sk(m) by {
            let i = choose|i: int| 0 <= i < ps.len() && ps[i].0 == m;
            if i < at {
                assert(es[i].0 == m);
            } else {
                assert(i != at);
                assert(es[i - 1].0 == m);
            }
        }
        assert forall|m: Seq<char>| self.contains_sk(m) implies self.spec_get(m) == prev.spec_get(
            m,
        ) by {
            self.lemma_index_of(m);
            prev.lemma_index_of(m);
            let i = self.index_of(m);
            let pi: int = if i < at { i } else { i + 1 };
            assert(ps[pi].0 == m && ps[pi].1 == es[i].1);
        }
    }
}

impl<V> View for OrdMap<V> {
    type V = Map<Seq<char>, V>;

    open spec fn view(&self) -> Map<Seq<char>, V> {
        Map::new(|k: Seq<char>| self.contains_sk(k), |k: Seq<char>| self.spec_get(k))
    }
}

} // verus!
