//! A map from names to values, its names in order.

use vstd::prelude::*;
use crate::text::{lemma_text_lt_total, lemma_text_lt_trans, same, text_less, text_lt, texts};

verus! {

/// A map from names to values.
#[derive(Debug, PartialEq)]
#[verifier::reject_recursive_types(V)]
pub struct Table<V> {
    entries: Vec<(String, V)>,
}

/// Each name comes before the later ones.
pub open spec fn ascending(names: Seq<Seq<char>>) -> bool {
    forall|i: int, j: int| 0 <= i < j < names.len() ==> text_lt(#[trigger] names[i], #[trigger] names[j])
}

impl<V> Table<V> {
    /// The names, first to last.
    pub closed spec fn keys(&self) -> Seq<Seq<char>> {
        Seq::new(self.entries@.len(), |i: int| self.entries@[i].0@)
    }

    /// The names are in order, so that none stands twice.
    pub closed spec fn wf(&self) -> bool {
        ascending(self.keys())
    }

    closed spec fn at(&self, k: Seq<char>) -> int {
        choose|i: int| 0 <= i < self.entries@.len() && #[trigger] self.entries@[i].0@ == k
    }
}

impl<V> View for Table<V> {
    type V = Map<Seq<char>, V>;

    closed spec fn view(&self) -> Map<Seq<char>, V> {
        Map::new(|k: Seq<char>| self.keys().contains(k), |k: Seq<char>| self.entries@[self.at(k)].1)
    }
}

impl<V> Table<V> {
    proof fn lemma_at(&self, i: int)
        requires
            self.wf(),
            0 <= i < self.entries@.len(),
        ensures
            self.at(self.entries@[i].0@) == i,
            self@.dom().contains(self.entries@[i].0@),
            self@[self.entries@[i].0@] == self.entries@[i].1,
    {
        let k = self.entries@[i].0@;
        assert(self.keys()[i] == k);
        let j = self.at(k);
        assert(self.entries@[j].0@ == k && 0 <= j < self.entries@.len());
        assert(self.keys()[j] == k);
        lemma_text_lt_total(k, k);
        if i < j {
            assert(text_lt(self.keys()[i], self.keys()[j]));
        } else if j < i {
            assert(text_lt(self.keys()[j], self.keys()[i]));
        }
    }

    /// The names in the table are those it maps, in order.
    pub proof fn lemma_keys(&self)
        requires
            self.wf(),
        ensures
            ascending(self.keys()),
            forall|k: Seq<char>| #[trigger] self@.dom().contains(k) <==> self.keys().contains(k),
    {
    }

    /// An empty table.
    pub fn new() -> (r: Self)
        ensures
            r.wf(),
            r@ == Map::<Seq<char>, V>::empty(),
            r.keys().len() == 0,
    {
        let r = Table { entries: Vec::new() };
        assert(r@ =~= Map::<Seq<char>, V>::empty());
        r
    }

    /// How many names there are.
    pub fn len(&self) -> (r: usize)
        ensures
            r == self.keys().len(),
    {
        self.entries.len()
    }

    /// Where `key` stands, or belongs.
    fn place(&self, key: &str) -> (r: usize)
        requires
            self.wf(),
        ensures
            r <= self.entries@.len(),
            forall|i: int| 0 <= i < r ==> text_lt(#[trigger] self.keys()[i], key@),
            r < self.entries@.len() ==> !text_lt(self.keys()[r as int], key@),
    {
        let mut i: usize = 0;
        while i < self.entries.len() && text_less(&self.entries[i].0, key)
            invariant
                i <= self.entries@.len(),
                forall|j: int| 0 <= j < i ==> text_lt(#[trigger] self.keys()[j], key@),
            decreases self.entries@.len() - i,
        {
            assert(self.keys()[i as int] == self.entries@[i as int].0@);
            i += 1;
        }
        if i < self.entries.len() {
            assert(self.keys()[i as int] == self.entries@[i as int].0@);
        }
        i
    }

    proof fn lemma_absent(&self, key: Seq<char>, r: int)
        requires
            self.wf(),
            0 <= r <= self.entries@.len(),
            forall|i: int| 0 <= i < r ==> text_lt(#[trigger] self.keys()[i], key),
            r < self.entries@.len() ==> !text_lt(self.keys()[r], key) && self.keys()[r] != key,
        ensures
            !self@.dom().contains(key),
            forall|i: int| r <= i < self.entries@.len() ==> text_lt(key, #[trigger] self.keys()[i]),
    {
        assert forall|i: int| r <= i < self.entries@.len() implies text_lt(key, #[trigger] self.keys()[i]) by {
            lemma_text_lt_total(self.keys()[r], key);
            if i > r {
                lemma_text_lt_trans(key, self.keys()[r], self.keys()[i]);
            }
        }
        lemma_text_lt_total(key, key);
        if self.keys().contains(key) {
            let i = choose|i: int| 0 <= i < self.keys().len() && self.keys()[i] == key;
            if i < r {
                assert(text_lt(self.keys()[i], key));
            } else {
                assert(text_lt(key, self.keys()[i]));
            }
        }
    }

    /// The value under `key`.
    pub fn get(&self, key: &str) -> (r: Option<&V>)
        requires
            self.wf(),
        ensures
            match r {
                Some(v) => self@.dom().contains(key@) && self@[key@] == *v,
                None => !self@.dom().contains(key@),
            },
    {
        let i = self.place(key);
        if i < self.entries.len() && same(&self.entries[i].0, key) {
            proof {
                self.lemma_at(i as int);
            }
            Some(&self.entries[i].1)
        } else {
            proof {
                if i < self.entries@.len() {
                    assert(self.keys()[i as int] == self.entries@[i as int].0@);
                }
                self.lemma_absent(key@, i as int);
            }
            None
        }
    }

    /// Whether `key` is there.
    pub fn contains(&self, key: &str) -> (r: bool)
        requires
            self.wf(),
        ensures
            r == self@.dom().contains(key@),
    {
        self.get(key).is_some()
    }

    /// Puts `v` under `key`, in place of what was there.
    pub fn insert(&mut self, key: String, v: V)
        requires
            old(self).wf(),
        ensures
            final(self).wf(),
            final(self)@ == old(self)@.insert(key@, v),
    {
        let i = self.place(&key);
        let ghost k = key@;
        let ghost before = *self;
        let found = i < self.entries.len() && same(&self.entries[i].0, &key);
        if i < self.entries.len() {
            assert(before.keys()[i as int] == before.entries@[i as int].0@);
        }
        if found {
            self.entries.set(i, (key, v));
            assert(self.keys() =~= before.keys());
            assert forall|q: Seq<char>| #[trigger] before@.dom().contains(q) && q != k implies self@[q]
                == before@[q] by {
                let j = before.at(q);
                assert(before.keys().contains(q));
                let w = choose|w: int| 0 <= w < before.keys().len() && before.keys()[w] == q;
                assert(before.entries@[w].0@ == q);
                before.lemma_at(w);
                assert(self.entries@[w].0@ == q);
                self.lemma_at(w);
            }
            proof {
                self.lemma_at(i as int);
            }
            assert(self@.dom() =~= before@.dom().insert(k)) by {
                assert(before.keys()[i as int] == k);
            }
            assert(self@ =~= before@.insert(k, v));
        } else {
            proof {
                before.lemma_absent(k, i as int);
            }
            self.entries.insert(i, (key, v));
            assert(self.keys() =~= before.keys().insert(i as int, k));
            assert(self.wf()) by {
                assert forall|a: int, b: int| 0 <= a < b < self.keys().len() implies text_lt(
                    #[trigger] self.keys()[a],
                    #[trigger] self.keys()[b],
                ) by {
                    let ks = before.keys();
                    if a < i && b < i {
                        assert(text_lt(ks[a], ks[b]));
                    } else if a < i && b == i {
                        assert(text_lt(ks[a], k));
                    } else if a < i {
                        assert(text_lt(ks[a], ks[b - 1]));
                    } else if a == i {
                        assert(text_lt(k, ks[b - 1]));
                    } else {
                        assert(text_lt(ks[a - 1], ks[b - 1]));
                    }
                }
            }
            assert forall|q: Seq<char>| #[trigger] before@.dom().contains(q) implies self@.dom().contains(q)
                && self@[q] == before@[q] by {
                let w = choose|w: int| 0 <= w < before.keys().len() && before.keys()[w] == q;
                assert(before.entries@[w].0@ == q);
                before.lemma_at(w);
                let x = if w < i {
                    w
                } else {
                    w + 1
                };
                assert(self.entries@[x] == before.entries@[w]);
                self.lemma_at(x);
            }
            proof {
                self.lemma_at(i as int);
            }
            assert forall|q: Seq<char>| #[trigger] self@.dom().contains(q) implies before@.dom().contains(q)
                || q == k by {
                let x = choose|x: int| 0 <= x < self.keys().len() && self.keys()[x] == q;
                if x < i {
                    assert(before.keys()[x] == q);
                } else if x > i {
                    assert(before.keys()[x - 1] == q);
                }
            }
            assert(self@ =~= before@.insert(k, v));
        }
    }

    /// Takes the value under `key` out.
    pub fn remove(&mut self, key: &str) -> (r: Option<V>)
        requires
            old(self).wf(),
        ensures
            final(self).wf(),
            final(self)@ == old(self)@.remove(key@),
            match r {
                Some(v) => old(self)@.dom().contains(key@) && old(self)@[key@] == v,
                None => !old(self)@.dom().contains(key@),
            },
    {
        let i = self.place(key);
        let ghost before = *self;
        let ghost k = key@;
        let found = i < self.entries.len() && same(&self.entries[i].0, key);
        if i < self.entries.len() {
            assert(before.keys()[i as int] == before.entries@[i as int].0@);
        }
        if !found {
            proof {
                before.lemma_absent(k, i as int);
            }
            assert(self@ =~= before@.remove(k));
            return None;
        }
        proof {
            before.lemma_at(i as int);
        }
        let taken = self.entries.remove(i);
        assert(self.keys() =~= before.keys().remove(i as int));
        assert(self.wf()) by {
            assert forall|a: int, b: int| 0 <= a < b < self.keys().len() implies text_lt(
                #[trigger] self.keys()[a],
                #[trigger] self.keys()[b],
            ) by {
                let x = if a < i {
                    a
                } else {
                    a + 1
                };
                let y = if b < i {
                    b
                } else {
                    b + 1
                };
                assert(text_lt(before.keys()[x], before.keys()[y]));
            }
        }
        assert forall|q: Seq<char>| #[trigger] before@.dom().contains(q) && q != k implies self@.dom().contains(q)
            && self@[q] == before@[q] by {
            let w = choose|w: int| 0 <= w < before.keys().len() && before.keys()[w] == q;
            assert(before.entries@[w].0@ == q);
            before.lemma_at(w);
            let x = if w < i {
                w
            } else {
                w - 1
            };
            assert(self.entries@[x] == before.entries@[w]);
            self.lemma_at(x);
        }
        assert forall|q: Seq<char>| #[trigger] self@.dom().contains(q) implies before@.dom().contains(q)
            && q != k by {
            let x = choose|x: int| 0 <= x < self.keys().len() && self.keys()[x] == q;
            let w = if x < i {
                x
            } else {
                x + 1
            };
            assert(before.keys()[w] == q);
            lemma_text_lt_total(k, k);
            if w < i {
                assert(text_lt(before.keys()[w], before.keys()[i as int]));
            } else {
                assert(text_lt(before.keys()[i as int], before.keys()[w]));
            }
        }
        assert(self@ =~= before@.remove(k));
        Some(taken.1)
    }

    /// The names, in order.
    pub fn names(&self) -> (r: Vec<String>)
        ensures
            texts(r@) == self.keys(),
    {
        let mut out: Vec<String> = Vec::new();
        for i in 0..self.entries.len()
            invariant
                texts(out@) == self.keys().take(i as int),
        {
            let ghost before = texts(out@);
            out.push(self.entries[i].0.clone());
            assert(texts(out@) =~= before.push(self.keys()[i as int]));
            assert(self.keys().take(i + 1) =~= self.keys().take(i as int).push(self.keys()[i as int]));
        }
        assert(self.keys().take(self.keys().len() as int) =~= self.keys());
        out
    }
}

} // verus!
