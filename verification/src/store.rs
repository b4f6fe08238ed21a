//! The document store: a mapping from canonical path key to buffered
//! document state, and the set of dirty paths. Both are held as vectors
//! of entries whose key models are pairwise distinct, and are specified
//! against their mathematical views, a `Map` and a `Set` over path models.

use crate::document::{DocView, FileData};
use crate::path::{rebase_inj, rebase_path, CanonPath, PathKey, PathView};
use vstd::prelude::*;

verus! {

/// Model of opening a document: insert `d` at `p` when `p` is absent,
/// leave the stored entry untouched when it is already present.
pub open spec fn open_or_get_map(
    m: Map<PathView, DocView>,
    p: PathView,
    d: DocView,
) -> Map<PathView, DocView> {
    if m.dom().contains(p) {
        m
    } else {
        m.insert(p, d)
    }
}

/// Some entry of `s` has key model `p`.
spec fn has_key(s: Seq<(PathKey, FileData)>, p: PathView) -> bool {
    exists|i: int| #![trigger s[i]] 0 <= i < s.len() && s[i].0@ == p
}

/// The index of the entry of `s` whose key model is `p`.
spec fn key_index(s: Seq<(PathKey, FileData)>, p: PathView) -> int {
    choose|i: int| #![trigger s[i]] 0 <= i < s.len() && s[i].0@ == p
}

/// The key models of the entries of `s` are pairwise distinct.
spec fn unique_keys(s: Seq<(PathKey, FileData)>) -> bool {
    forall|i: int, j: int|
        #![trigger s[i], s[j]]
        0 <= i < j < s.len() ==> s[i].0@ != s[j].0@
}

/// The set of key models of the entries of `s`.
spec fn keys_of(s: Seq<(PathKey, FileData)>) -> Set<PathView> {
    Set::new(|p: PathView| has_key(s, p))
}

/// The mapping from canonical path key to open document.
pub struct DocMap {
    entries: Vec<(PathKey, FileData)>,
}

impl View for DocMap {
    type V = Map<PathView, DocView>;

    closed spec fn view(&self) -> Map<PathView, DocView> {
        Map::new(
            |p: PathView| has_key(self.entries@, p),
            |p: PathView| self.entries@[key_index(self.entries@, p)].1@,
        )
    }
}

/// The set of key models of `s`, as a finite set whose size, when the
/// keys are pairwise distinct, is the number of entries.
proof fn lemma_keys_of_finite(s: Seq<(PathKey, FileData)>)
    ensures
        keys_of(s).finite(),
        unique_keys(s) ==> keys_of(s).len() == s.len(),
    decreases s.len(),
{
    if s.len() == 0 {
        assert(keys_of(s) =~= Set::<PathView>::empty());
    } else {
        let pre = s.drop_last();
        lemma_keys_of_finite(pre);
        assert forall|p: PathView| keys_of(s).contains(p) implies keys_of(pre).insert(
            s.last().0@,
        ).contains(p) by {
            let i = choose|i: int| #![trigger s[i]] 0 <= i < s.len() && s[i].0@ == p;
            if i < s.len() - 1 {
                assert(pre[i] == s[i]);
                assert(has_key(pre, p));
            }
        }
        assert forall|p: PathView| keys_of(pre).insert(s.last().0@).contains(p) implies keys_of(
            s,
        ).contains(p) by {
            if keys_of(pre).contains(p) {
                let i = choose|i: int| #![trigger pre[i]] 0 <= i < pre.len() && pre[i].0@ == p;
                assert(s[i] == pre[i]);
                assert(has_key(s, p));
            } else {
                assert(s[s.len() - 1].0@ == p);
                assert(has_key(s, p));
            }
        }
        assert(keys_of(s) =~= keys_of(pre).insert(s.last().0@));
        if unique_keys(s) {
            assert forall|i: int, j: int|
                #![trigger pre[i], pre[j]]
                0 <= i < j < pre.len() implies pre[i].0@ != pre[j].0@ by {
                assert(pre[i] == s[i]);
                assert(pre[j] == s[j]);
            }
            if keys_of(pre).contains(s.last().0@) {
                let i = choose|i: int|
                    #![trigger pre[i]]
                    0 <= i < pre.len() && pre[i].0@ == s.last().0@;
                assert(s[i] == pre[i]);
                assert(false);
            }
        }
    }
}

impl DocMap {
    /// The key models of the stored entries are pairwise distinct, so the
    /// vector of entries faithfully represents its map model.
    pub closed spec fn wf(&self) -> bool {
        unique_keys(self.entries@)
    }

    /// Membership in the map model is having an entry.
    proof fn lemma_dom(&self, p: PathView)
        ensures
            self@.dom().contains(p) == has_key(self.entries@, p),
    {
    }

    /// The entry at index `i` gives the model's value at its key.
    proof fn lemma_lookup(&self, i: int)
        requires
            self.wf(),
            0 <= i < self.entries@.len(),
        ensures
            self@.dom().contains(self.entries@[i].0@),
            self@[self.entries@[i].0@] == self.entries@[i].1@,
    {
        let p = self.entries@[i].0@;
        assert(has_key(self.entries@, p));
        let j = key_index(self.entries@, p);
        assert(0 <= j < self.entries@.len() && self.entries@[j].0@ == p);
        if j != i {
            assert(self.entries@[i].0@ != self.entries@[j].0@);
        }
    }

    /// The map model is finite; with distinct keys its size is the entry
    /// count.
    proof fn lemma_dom_finite(&self)
        ensures
            self@.dom().finite(),
            self.wf() ==> self@.dom().len() == self.entries@.len(),
    {
        lemma_keys_of_finite(self.entries@);
        assert(self@.dom() =~= keys_of(self.entries@));
    }

    /// The empty store.
    pub fn new() -> (r: DocMap)
        ensures
            r.wf(),
            r@ == Map::<PathView, DocView>::empty(),
    {
        let r = DocMap { entries: Vec::new() };
        proof {
            assert forall|p: PathView| !r@.dom().contains(p) by {
                r.lemma_dom(p);
            }
            assert(r@ =~= Map::<PathView, DocView>::empty());
        }
        r
    }

    /// Index of the entry stored under `key`, if any.
    fn index_of(&self, key: &PathKey) -> (r: Option<usize>)
        ensures
            (match r {
                Some(i) => i < self.entries@.len() && self.entries@[i as int].0@ == key@,
                None => forall|i: int|
                    #![trigger self.entries@[i]]
                    0 <= i < self.entries@.len() ==> self.entries@[i].0@ != key@,
            }),
    {
        let mut i: usize = 0;
        while i < self.entries.len()
            invariant
                i <= self.entries@.len(),
                forall|j: int|
                    #![trigger self.entries@[j]]
                    0 <= j < i ==> self.entries@[j].0@ != key@,
            decreases self.entries@.len() - i,
        {
            if self.entries[i].0.key_eq(key) {
                return Some(i);
            }
            i += 1;
        }
        None
    }

    /// Read-only lookup; absence is a result, never an error.
    pub fn get(&self, key: &PathKey) -> (r: Option<&FileData>)
        requires
            self.wf(),
        ensures
            (match r {
                Some(d) => self@.dom().contains(key@) && d@ == self@[key@],
                None => !self@.dom().contains(key@),
            }),
    {
        match self.index_of(key) {
            Some(i) => {
                proof {
                    self.lemma_lookup(i as int);
                }
                Some(&self.entries[i].1)
            },
            None => {
                proof {
                    self.lemma_dom(key@);
                }
                None
            },
        }
    }

    /// Insert `value` under `key`, overwriting any stored entry.
    pub fn insert(&mut self, key: &PathKey, value: FileData)
        requires
            old(self).wf(),
        ensures
            final(self).wf(),
            final(self)@ == old(self)@.insert(key@, value@),
    {
        let ghost pre = *self;
        match self.index_of(key) {
            Some(i) => {
                self.entries[i].1 = value;
                proof {
                    assert(self.entries@.len() == pre.entries@.len());
                    assert forall|j: int|
                        #![trigger self.entries@[j]]
                        0 <= j < self.entries@.len() implies self.entries@[j].0
                        == pre.entries@[j].0 by {}
                    assert(self.wf());
                    assert forall|q: PathView| true implies self@.dom().contains(q) == pre@.dom(
                    ).contains(q) by {
                        self.lemma_dom(q);
                        pre.lemma_dom(q);
                        if has_key(pre.entries@, q) {
                            let k = choose|k: int|
                                #![trigger pre.entries@[k]]
                                0 <= k < pre.entries@.len() && pre.entries@[k].0@ == q;
                            assert(self.entries@[k].0@ == q);
                        }
                        if has_key(self.entries@, q) {
                            let k = choose|k: int|
                                #![trigger self.entries@[k]]
                                0 <= k < self.entries@.len() && self.entries@[k].0@ == q;
                            assert(pre.entries@[k].0@ == q);
                        }
                    }
                    assert forall|q: PathView| self@.dom().contains(q) implies self@[q] == old(
                        self,
                    )@.insert(key@, value@)[q] by {
                        self.lemma_dom(q);
                        let k = choose|k: int|
                            #![trigger self.entries@[k]]
                            0 <= k < self.entries@.len() && self.entries@[k].0@ == q;
                        self.lemma_lookup(k);
                        if q == key@ {
                            if k != i {
                                assert(self.entries@[k].0@ != self.entries@[i as int].0@);
                            }
                            assert(self@[q] == value@);
                        } else {
                            assert(k != i);
                            pre.lemma_lookup(k);
                        }
                    }
                    pre.lemma_lookup(i as int);
                    assert(old(self)@.insert(key@, value@).dom() =~= self@.dom());
                    assert(self@ =~= old(self)@.insert(key@, value@));
                }
            },
            None => {
                self.entries.push((key.duplicate(), value));
                proof {
                    let n = pre.entries@.len() as int;
                    assert(self.entries@.len() == n + 1);
                    assert forall|j: int|
                        #![trigger self.entries@[j]]
                        0 <= j < n implies self.entries@[j] == pre.entries@[j] by {}
                    assert(self.entries@[n].0@ == key@);
                    assert(self.wf());
                    assert forall|q: PathView| self@.dom().contains(q) implies self@[q] == old(
                        self,
                    )@.insert(key@, value@)[q] by {
                        self.lemma_dom(q);
                        let k = choose|k: int|
                            #![trigger self.entries@[k]]
                            0 <= k < self.entries@.len() && self.entries@[k].0@ == q;
                        self.lemma_lookup(k);
                        if k == n {
                            assert(self@[q] == value@);
                        } else {
                            pre.lemma_lookup(k);
                        }
                    }
                    assert forall|q: PathView| true implies self@.dom().contains(q) == old(
                        self,
                    )@.insert(key@, value@).dom().contains(q) by {
                        self.lemma_dom(q);
                        pre.lemma_dom(q);
                        if has_key(pre.entries@, q) {
                            let k = choose|k: int|
                                #![trigger pre.entries@[k]]
                                0 <= k < pre.entries@.len() && pre.entries@[k].0@ == q;
                            assert(self.entries@[k].0@ == q);
                        }
                        if has_key(self.entries@, q) {
                            let k = choose|k: int|
                                #![trigger self.entries@[k]]
                                0 <= k < self.entries@.len() && self.entries@[k].0@ == q;
                            if k < n {
                                assert(pre.entries@[k].0@ == q);
                            }
                        }
                    }
                    assert(old(self)@.insert(key@, value@).dom() =~= self@.dom());
                    assert(self@ =~= old(self)@.insert(key@, value@));
                }
            },
        }
    }

    /// Insert `value` under `key` only when `key` is absent; an existing
    /// entry is left untouched.
    pub fn insert_if_absent(&mut self, key: &PathKey, value: FileData)
        requires
            old(self).wf(),
        ensures
            final(self).wf(),
            final(self)@ == open_or_get_map(old(self)@, key@, value@),
    {
        proof {
            self.lemma_dom(key@);
        }
        match self.index_of(key) {
            Some(i) => {
                proof {
                    self.lemma_lookup(i as int);
                }
            },
            None => {
                let ghost pre = *self;
                self.entries.push((key.duplicate(), value));
                proof {
                    let n = pre.entries@.len() as int;
                    assert forall|j: int|
                        #![trigger self.entries@[j]]
                        0 <= j < n implies self.entries@[j] == pre.entries@[j] by {}
                    assert(self.entries@[n].0@ == key@);
                    assert(self.wf());
                    assert forall|q: PathView| self@.dom().contains(q) implies self@[q] == old(
                        self,
                    )@.insert(key@, value@)[q] by {
                        self.lemma_dom(q);
                        let k = choose|k: int|
                            #![trigger self.entries@[k]]
                            0 <= k < self.entries@.len() && self.entries@[k].0@ == q;
                        self.lemma_lookup(k);
                        if k == n {
                            assert(self@[q] == value@);
                        } else {
                            pre.lemma_lookup(k);
                        }
                    }
                    assert forall|q: PathView| true implies self@.dom().contains(q) == old(
                        self,
                    )@.insert(key@, value@).dom().contains(q) by {
                        self.lemma_dom(q);
                        pre.lemma_dom(q);
                        if has_key(pre.entries@, q) {
                            let k = choose|k: int|
                                #![trigger pre.entries@[k]]
                                0 <= k < pre.entries@.len() && pre.entries@[k].0@ == q;
                            assert(self.entries@[k].0@ == q);
                        }
                        if has_key(self.entries@, q) {
                            let k = choose|k: int|
                                #![trigger self.entries@[k]]
                                0 <= k < self.entries@.len() && self.entries@[k].0@ == q;
                            if k < n {
                                assert(pre.entries@[k].0@ == q);
                            }
                        }
                    }
                    assert(old(self)@.insert(key@, value@).dom() =~= self@.dom());
                    assert(self@ =~= old(self)@.insert(key@, value@));
                }
            },
        }
    }

    /// Remove the entry stored under `key`; a no-op when none is.
    pub fn remove(&mut self, key: &PathKey)
        requires
            old(self).wf(),
        ensures
            final(self).wf(),
            final(self)@ == old(self)@.remove(key@),
    {
        let ghost pre = *self;
        match self.index_of(key) {
            Some(i) => {
                self.entries.remove(i);
                proof {
                    let n = pre.entries@.len() as int;
                    let ii = i as int;
                    assert(self.entries@.len() == n - 1);
                    assert forall|j: int|
                        #![trigger self.entries@[j]]
                        0 <= j < n - 1 implies self.entries@[j] == (if j < ii {
                        pre.entries@[j]
                    } else {
                        pre.entries@[j + 1]
                    }) by {}
                    assert(self.wf());
                    assert forall|q: PathView| self@.dom().contains(q) implies self@[q] == old(
                        self,
                    )@.remove(key@)[q] && old(self)@.remove(key@).dom().contains(q) by {
                        self.lemma_dom(q);
                        let k = choose|k: int|
                            #![trigger self.entries@[k]]
                            0 <= k < self.entries@.len() && self.entries@[k].0@ == q;
                        self.lemma_lookup(k);
                        let k0 = if k < ii {
                            k
                        } else {
                            k + 1
                        };
                        pre.lemma_lookup(k0);
                        if q == key@ {
                            assert(pre.entries@[k0].0@ != pre.entries@[ii].0@);
                        }
                        pre.lemma_dom(q);
                    }
                    assert forall|q: PathView| old(self)@.remove(key@).dom().contains(
                        q,
                    ) implies self@.dom().contains(q) by {
                        pre.lemma_dom(q);
                        self.lemma_dom(q);
                        let k = choose|k: int|
                            #![trigger pre.entries@[k]]
                            0 <= k < pre.entries@.len() && pre.entries@[k].0@ == q;
                        if k != ii {
                            let k1 = if k < ii {
                                k
                            } else {
                                k - 1
                            };
                            assert(self.entries@[k1].0@ == q);
                        }
                    }
                    assert(old(self)@.remove(key@).dom() =~= self@.dom());
                    assert(self@ =~= old(self)@.remove(key@));
                }
            },
            None => {
                proof {
                    pre.lemma_dom(key@);
                    assert(self@ =~= old(self)@.remove(key@));
                }
            },
        }
    }

    /// Rebuild the store, rebasing every key from `old_root` to
    /// `new_root`, as a pure per-entry transform of the old store. The new
    /// key set is exactly the image of the old one, and every new key
    /// holds a value carried over from one of its preimages. When
    /// rebasing maps no two old keys to one key, the store keeps its size
    /// and every entry its value.
    pub fn rebase_all(&mut self, old_root: &CanonPath, new_root: &CanonPath)
        requires
            old(self).wf(),
        ensures
            final(self).wf(),
            forall|q: PathView|
                #![trigger final(self)@.dom().contains(q)]
                final(self)@.dom().contains(q) <==> exists|p: PathView|
                    #![trigger rebase_path(p, old_root@, new_root@)]
                    old(self)@.dom().contains(p) && q == rebase_path(p, old_root@, new_root@),
            forall|q: PathView|
                #![trigger final(self)@[q]]
                final(self)@.dom().contains(q) ==> exists|p: PathView|
                    #![trigger rebase_path(p, old_root@, new_root@)]
                    old(self)@.dom().contains(p) && q == rebase_path(p, old_root@, new_root@)
                        && final(self)@[q] == old(self)@[p],
            rebase_inj(old(self)@.dom(), old_root@, new_root@) ==> (forall|p: PathView|
                #![trigger rebase_path(p, old_root@, new_root@)]
                old(self)@.dom().contains(p) ==> final(self)@.dom().contains(
                    rebase_path(p, old_root@, new_root@),
                ) && final(self)@[rebase_path(p, old_root@, new_root@)] == old(self)@[p]),
            rebase_inj(old(self)@.dom(), old_root@, new_root@) ==> final(self)@.dom().len() == old(
                self,
            )@.dom().len(),
    {
        let ghost pre = *self;
        let mut out = DocMap::new();
        proof {
            pre.lemma_dom_finite();
            assert(pre.entries@.take(pre.entries@.len() as int) =~= pre.entries@);
        }
        while self.entries.len() > 0
            invariant
                pre.wf(),
                out.wf(),
                self.entries@.len() <= pre.entries@.len(),
                self.entries@ == pre.entries@.take(self.entries@.len() as int),
                forall|q: PathView|
                    #![trigger out@.dom().contains(q)]
                    out@.dom().contains(q) <==> exists|j: int|
                        #![trigger pre.entries@[j]]
                        self.entries@.len() <= j < pre.entries@.len() && rebase_path(
                            pre.entries@[j].0@,
                            old_root@,
                            new_root@,
                        ) == q,
                forall|q: PathView|
                    #![trigger out@[q]]
                    out@.dom().contains(q) ==> exists|j: int|
                        #![trigger pre.entries@[j]]
                        self.entries@.len() <= j < pre.entries@.len() && rebase_path(
                            pre.entries@[j].0@,
                            old_root@,
                            new_root@,
                        ) == q && out@[q] == pre.entries@[j].1@,
                rebase_inj(pre@.dom(), old_root@, new_root@) ==> out@.dom().len()
                    == pre.entries@.len() - self.entries@.len(),
            decreases self.entries@.len(),
        {
            let ghost m = self.entries@.len() as int;
            let kv = self.entries.pop().unwrap();
            let (k0, v0) = kv;
            proof {
                assert(self.entries@ =~= pre.entries@.take(m - 1));
                assert(k0 == pre.entries@[m - 1].0);
                assert(v0 == pre.entries@[m - 1].1);
            }
            let k2 = k0.rebase(old_root, new_root);
            let ghost out_before = out;
            proof {
                out.lemma_dom_finite();
                if rebase_inj(pre@.dom(), old_root@, new_root@) && out_before@.dom().contains(
                    k2@,
                ) {
                    let j = choose|j: int|
                        #![trigger pre.entries@[j]]
                        m <= j < pre.entries@.len() && rebase_path(
                            pre.entries@[j].0@,
                            old_root@,
                            new_root@,
                        ) == k2@;
                    pre.lemma_lookup(j);
                    pre.lemma_lookup(m - 1);
                    assert(pre.entries@[j].0@ == pre.entries@[m - 1].0@);
                    assert(false);
                }
            }
            out.insert(&k2, v0);
            proof {
                assert forall|q: PathView| out@.dom().contains(q) implies exists|j: int|
                    #![trigger pre.entries@[j]]
                    m - 1 <= j < pre.entries@.len() && rebase_path(
                        pre.entries@[j].0@,
                        old_root@,
                        new_root@,
                    ) == q && out@[q] == pre.entries@[j].1@ by {
                    if q == k2@ {
                        assert(rebase_path(pre.entries@[m - 1].0@, old_root@, new_root@) == q
                            && out@[q] == pre.entries@[m - 1].1@);
                    } else {
                        assert(out_before@.dom().contains(q));
                        let j = choose|j: int|
                            #![trigger pre.entries@[j]]
                            m <= j < pre.entries@.len() && rebase_path(
                                pre.entries@[j].0@,
                                old_root@,
                                new_root@,
                            ) == q && out_before@[q] == pre.entries@[j].1@;
                        assert(rebase_path(pre.entries@[j].0@, old_root@, new_root@) == q && out@[q]
                            == pre.entries@[j].1@);
                    }
                }
                assert forall|q: PathView|
                    (exists|j: int|
                        #![trigger pre.entries@[j]]
                        m - 1 <= j < pre.entries@.len() && rebase_path(
                            pre.entries@[j].0@,
                            old_root@,
                            new_root@,
                        ) == q) implies out@.dom().contains(q) by {
                    let j = choose|j: int|
                        #![trigger pre.entries@[j]]
                        m - 1 <= j < pre.entries@.len() && rebase_path(
                            pre.entries@[j].0@,
                            old_root@,
                            new_root@,
                        ) == q;
                    if j == m - 1 {
                        assert(q == k2@);
                    } else {
                        assert(out_before@.dom().contains(q));
                    }
                }
            }
        }
        proof {
            assert forall|q: PathView| out@.dom().contains(q) implies exists|p: PathView|
                #![trigger rebase_path(p, old_root@, new_root@)]
                pre@.dom().contains(p) && q == rebase_path(p, old_root@, new_root@) && out@[q]
                    == pre@[p] by {
                let j = choose|j: int|
                    #![trigger pre.entries@[j]]
                    0 <= j < pre.entries@.len() && rebase_path(
                        pre.entries@[j].0@,
                        old_root@,
                        new_root@,
                    ) == q && out@[q] == pre.entries@[j].1@;
                pre.lemma_lookup(j);
                assert(pre@.dom().contains(pre.entries@[j].0@) && q == rebase_path(
                    pre.entries@[j].0@,
                    old_root@,
                    new_root@,
                ) && out@[q] == pre@[pre.entries@[j].0@]);
            }
            assert forall|p: PathView|
                pre@.dom().contains(p) implies out@.dom().contains(
                rebase_path(p, old_root@, new_root@),
            ) by {
                pre.lemma_dom(p);
                let i = choose|i: int|
                    #![trigger pre.entries@[i]]
                    0 <= i < pre.entries@.len() && pre.entries@[i].0@ == p;
                assert(rebase_path(pre.entries@[i].0@, old_root@, new_root@) == rebase_path(
                    p,
                    old_root@,
                    new_root@,
                ));
            }
            if rebase_inj(pre@.dom(), old_root@, new_root@) {
                assert forall|p: PathView| pre@.dom().contains(p) implies out@[rebase_path(
                    p,
                    old_root@,
                    new_root@,
                )] == pre@[p] by {
                    let q = rebase_path(p, old_root@, new_root@);
                    assert(out@.dom().contains(q));
                    let j = choose|j: int|
                        #![trigger pre.entries@[j]]
                        0 <= j < pre.entries@.len() && rebase_path(
                            pre.entries@[j].0@,
                            old_root@,
                            new_root@,
                        ) == q && out@[q] == pre.entries@[j].1@;
                    pre.lemma_lookup(j);
                    assert(pre.entries@[j].0@ == p);
                }
                pre.lemma_dom_finite();
            }
        }
        *self = out;
    }
}

/// Some element of `s` has model `p`.
spec fn has_path(s: Seq<PathKey>, p: PathView) -> bool {
    exists|i: int| #![trigger s[i]] 0 <= i < s.len() && s[i]@ == p
}

/// The key models of the elements of `s` are pairwise distinct.
spec fn unique_paths(s: Seq<PathKey>) -> bool {
    forall|i: int, j: int| #![trigger s[i], s[j]] 0 <= i < j < s.len() ==> s[i]@ != s[j]@
}

/// The set of paths with unsaved changes. Presence in this set, not any
/// stored flag, is the source of truth for "is edited".
pub struct PathSet {
    entries: Vec<PathKey>,
}

impl View for PathSet {
    type V = Set<PathView>;

    closed spec fn view(&self) -> Set<PathView> {
        Set::new(|p: PathView| has_path(self.entries@, p))
    }
}

impl PathSet {
    /// The models of the stored keys are pairwise distinct.
    pub closed spec fn wf(&self) -> bool {
        unique_paths(self.entries@)
    }

    /// The empty set.
    pub fn new() -> (r: PathSet)
        ensures
            r.wf(),
            r@ == Set::<PathView>::empty(),
    {
        let r = PathSet { entries: Vec::new() };
        proof {
            assert(r@ =~= Set::<PathView>::empty());
        }
        r
    }

    /// Index of the element with model `key@`, if any.
    fn index_of(&self, key: &PathKey) -> (r: Option<usize>)
        ensures
            (match r {
                Some(i) => i < self.entries@.len() && self.entries@[i as int]@ == key@,
                None => forall|i: int|
                    #![trigger self.entries@[i]]
                    0 <= i < self.entries@.len() ==> self.entries@[i]@ != key@,
            }),
    {
        let mut i: usize = 0;
        while i < self.entries.len()
            invariant
                i <= self.entries@.len(),
                forall|j: int|
                    #![trigger self.entries@[j]]
                    0 <= j < i ==> self.entries@[j]@ != key@,
            decreases self.entries@.len() - i,
        {
            if self.entries[i].key_eq(key) {
                return Some(i);
            }
            i += 1;
        }
        None
    }

    /// Membership test.
    pub fn contains(&self, key: &PathKey) -> (r: bool)
        ensures
            r == self@.contains(key@),
    {
        match self.index_of(key) {
            Some(_) => true,
            None => {
                proof {
                    if has_path(self.entries@, key@) {
                        let i = choose|i: int|
                            #![trigger self.entries@[i]]
                            0 <= i < self.entries@.len() && self.entries@[i]@ == key@;
                        assert(false);
                    }
                }
                false
            },
        }
    }

    /// Insert the key; a no-op when it is already present.
    pub fn insert(&mut self, key: &PathKey)
        requires
            old(self).wf(),
        ensures
            final(self).wf(),
            final(self)@ == old(self)@.insert(key@),
    {
        let ghost pre = *self;
        match self.index_of(key) {
            Some(_) => {
                proof {
                    assert(self@.contains(key@));
                    assert(self@ =~= old(self)@.insert(key@));
                }
            },
            None => {
                self.entries.push(key.duplicate());
                proof {
                    let n = pre.entries@.len() as int;
                    assert forall|j: int|
                        #![trigger self.entries@[j]]
                        0 <= j < n implies self.entries@[j] == pre.entries@[j] by {}
                    assert(self.entries@[n]@ == key@);
                    assert(self.wf());
                    assert forall|q: PathView| self@.contains(q) implies old(self)@.insert(
                        key@,
                    ).contains(q) by {
                        let i = choose|i: int|
                            #![trigger self.entries@[i]]
                            0 <= i < self.entries@.len() && self.entries@[i]@ == q;
                        if i < n {
                            assert(pre.entries@[i]@ == q);
                        }
                    }
                    assert forall|q: PathView| old(self)@.insert(key@).contains(q) implies self@.contains(
                        q,
                    ) by {
                        if pre@.contains(q) {
                            let i = choose|i: int|
                                #![trigger pre.entries@[i]]
                                0 <= i < pre.entries@.len() && pre.entries@[i]@ == q;
                            assert(self.entries@[i]@ == q);
                        } else {
                            assert(self.entries@[n]@ == q);
                        }
                    }
                    assert(self@ =~= old(self)@.insert(key@));
                }
            },
        }
    }

    /// Remove the key; a no-op when it is absent.
    pub fn remove(&mut self, key: &PathKey)
        requires
            old(self).wf(),
        ensures
            final(self).wf(),
            final(self)@ == old(self)@.remove(key@),
    {
        let ghost pre = *self;
        match self.index_of(key) {
            Some(i) => {
                self.entries.remove(i);
                proof {
                    let n = pre.entries@.len() as int;
                    let ii = i as int;
                    assert forall|j: int|
                        #![trigger self.entries@[j]]
                        0 <= j < n - 1 implies self.entries@[j] == (if j < ii {
                        pre.entries@[j]
                    } else {
                        pre.entries@[j + 1]
                    }) by {}
                    assert(self.wf());
                    assert forall|q: PathView| self@.contains(q) implies old(self)@.remove(
                        key@,
                    ).contains(q) by {
                        let k = choose|k: int|
                            #![trigger self.entries@[k]]
                            0 <= k < self.entries@.len() && self.entries@[k]@ == q;
                        let k0 = if k < ii {
                            k
                        } else {
                            k + 1
                        };
                        assert(pre.entries@[k0]@ == q);
                        if q == key@ {
                            assert(pre.entries@[k0]@ != pre.entries@[ii]@);
                        }
                    }
                    assert forall|q: PathView| old(self)@.remove(key@).contains(q) implies self@.contains(
                        q,
                    ) by {
                        let k = choose|k: int|
                            #![trigger pre.entries@[k]]
                            0 <= k < pre.entries@.len() && pre.entries@[k]@ == q;
                        if k != ii {
                            let k1 = if k < ii {
                                k
                            } else {
                                k - 1
                            };
                            assert(self.entries@[k1]@ == q);
                        }
                    }
                    assert(self@ =~= old(self)@.remove(key@));
                }
            },
            None => {
                proof {
                    if has_path(pre.entries@, key@) {
                        let i = choose|i: int|
                            #![trigger pre.entries@[i]]
                            0 <= i < pre.entries@.len() && pre.entries@[i]@ == key@;
                        assert(false);
                    }
                    assert(self@ =~= old(self)@.remove(key@));
                }
            },
        }
    }

    /// Rebuild the set, rebasing every key from `old_root` to `new_root`:
    /// the new set is exactly the image of the old one.
    pub fn rebase_all(&mut self, old_root: &CanonPath, new_root: &CanonPath)
        requires
            old(self).wf(),
        ensures
            final(self).wf(),
            forall|q: PathView|
                #![trigger final(self)@.contains(q)]
                final(self)@.contains(q) <==> exists|p: PathView|
                    #![trigger rebase_path(p, old_root@, new_root@)]
                    old(self)@.contains(p) && q == rebase_path(p, old_root@, new_root@),
    {
        let ghost pre = *self;
        let mut out = PathSet::new();
        proof {
            assert(pre.entries@.take(pre.entries@.len() as int) =~= pre.entries@);
        }
        while self.entries.len() > 0
            invariant
                pre.wf(),
                out.wf(),
                self.entries@.len() <= pre.entries@.len(),
                self.entries@ == pre.entries@.take(self.entries@.len() as int),
                forall|q: PathView|
                    #![trigger out@.contains(q)]
                    out@.contains(q) <==> exists|j: int|
                        #![trigger pre.entries@[j]]
                        self.entries@.len() <= j < pre.entries@.len() && rebase_path(
                            pre.entries@[j]@,
                            old_root@,
                            new_root@,
                        ) == q,
            decreases self.entries@.len(),
        {
            let ghost m = self.entries@.len() as int;
            let k0 = self.entries.pop().unwrap();
            proof {
                assert(self.entries@ =~= pre.entries@.take(m - 1));
                assert(k0 == pre.entries@[m - 1]);
            }
            let k2 = k0.rebase(old_root, new_root);
            let ghost out_before = out;
            out.insert(&k2);
            proof {
                assert forall|q: PathView| out@.contains(q) implies exists|j: int|
                    #![trigger pre.entries@[j]]
                    m - 1 <= j < pre.entries@.len() && rebase_path(
                        pre.entries@[j]@,
                        old_root@,
                        new_root@,
                    ) == q by {
                    if q == k2@ {
                        assert(rebase_path(pre.entries@[m - 1]@, old_root@, new_root@) == q);
                    } else {
                        assert(out_before@.contains(q));
                        let j = choose|j: int|
                            #![trigger pre.entries@[j]]
                            m <= j < pre.entries@.len() && rebase_path(
                                pre.entries@[j]@,
                                old_root@,
                                new_root@,
                            ) == q;
                        assert(rebase_path(pre.entries@[j]@, old_root@, new_root@) == q);
                    }
                }
                assert forall|q: PathView|
                    (exists|j: int|
                        #![trigger pre.entries@[j]]
                        m - 1 <= j < pre.entries@.len() && rebase_path(
                            pre.entries@[j]@,
                            old_root@,
                            new_root@,
                        ) == q) implies out@.contains(q) by {
                    let j = choose|j: int|
                        #![trigger pre.entries@[j]]
                        m - 1 <= j < pre.entries@.len() && rebase_path(
                            pre.entries@[j]@,
                            old_root@,
                            new_root@,
                        ) == q;
                    if j == m - 1 {
                        assert(q == k2@);
                    } else {
                        assert(out_before@.contains(q));
                    }
                }
            }
        }
        proof {
            assert forall|q: PathView| out@.contains(q) implies exists|p: PathView|
                #![trigger rebase_path(p, old_root@, new_root@)]
                pre@.contains(p) && q == rebase_path(p, old_root@, new_root@) by {
                let j = choose|j: int|
                    #![trigger pre.entries@[j]]
                    0 <= j < pre.entries@.len() && rebase_path(
                        pre.entries@[j]@,
                        old_root@,
                        new_root@,
                    ) == q;
                assert(pre@.contains(pre.entries@[j]@) && q == rebase_path(
                    pre.entries@[j]@,
                    old_root@,
                    new_root@,
                ));
            }
            assert forall|q: PathView|
                (exists|p: PathView|
                    #![trigger rebase_path(p, old_root@, new_root@)]
                    pre@.contains(p) && q == rebase_path(p, old_root@, new_root@)) implies out@.contains(
                q,
            ) by {
                let p = choose|p: PathView|
                    #![trigger rebase_path(p, old_root@, new_root@)]
                    pre@.contains(p) && q == rebase_path(p, old_root@, new_root@);
                let i = choose|i: int|
                    #![trigger pre.entries@[i]]
                    0 <= i < pre.entries@.len() && pre.entries@[i]@ == p;
                assert(rebase_path(pre.entries@[i]@, old_root@, new_root@) == q);
            }
        }
        *self = out;
    }
}

} // verus!
