//! Association-list stores keyed by logical paths, and the
//! compile-once / render-once document cache.

use vstd::prelude::*;

use crate::paths::{LogicalPath, LogicalPathView};

verus! {

/// The map an association list denotes: later entries win.
pub open spec fn assoc_map<V>(s: Seq<(LogicalPathView, V)>) -> Map<LogicalPathView, V>
    decreases s.len(),
{
    if s.len() == 0 {
        Map::empty()
    } else {
        assoc_map(s.drop_last()).insert(s.last().0, s.last().1)
    }
}

/// No two entries share a key.
pub open spec fn unique_keys<V>(s: Seq<(LogicalPathView, V)>) -> bool {
    forall|i: int, j: int| 0 <= i < j < s.len() ==> s[i].0 != s[j].0
}

pub proof fn lemma_assoc_map_dom<V>(s: Seq<(LogicalPathView, V)>)
    ensures
        forall|k: LogicalPathView|
            assoc_map(s).dom().contains(k) <==> exists|i: int| 0 <= i < s.len() && s[i].0 == k,
    decreases s.len(),
{
    if s.len() > 0 {
        lemma_assoc_map_dom(s.drop_last());
        assert forall|k: LogicalPathView| assoc_map(s).dom().contains(k) implies exists|i: int|
            0 <= i < s.len() && s[i].0 == k by {
            if k == s.last().0 {
                assert(s[s.len() - 1].0 == k);
            } else {
                assert(assoc_map(s.drop_last()).dom().contains(k));
                let i = choose|i: int| 0 <= i < s.drop_last().len() && s.drop_last()[i].0 == k;
                assert(s.drop_last()[i] == s[i]);
                assert(s[i].0 == k);
            }
        }
        assert forall|k: LogicalPathView| (exists|i: int| 0 <= i < s.len() && s[i].0 == k) implies
            assoc_map(s).dom().contains(k) by {
            let i = choose|i: int| 0 <= i < s.len() && s[i].0 == k;
            if i < s.len() - 1 {
                assert(s.drop_last()[i] == s[i]);
                assert(s.drop_last()[i].0 == k);
                assert(assoc_map(s.drop_last()).dom().contains(k));
                assert(assoc_map(s) == assoc_map(s.drop_last()).insert(s.last().0, s.last().1));
            } else {
                assert(k == s.last().0);
            }
        }
    }
}

pub proof fn lemma_assoc_map_get<V>(s: Seq<(LogicalPathView, V)>, i: int)
    requires
        unique_keys(s),
        0 <= i < s.len(),
    ensures
        assoc_map(s).dom().contains(s[i].0),
        assoc_map(s)[s[i].0] == s[i].1,
    decreases s.len(),
{
    if i == s.len() - 1 {
    } else {
        assert(unique_keys(s.drop_last()));
        lemma_assoc_map_get(s.drop_last(), i);
        assert(s[i].0 != s.last().0);
    }
}

pub proof fn lemma_assoc_map_push<V>(s: Seq<(LogicalPathView, V)>, p: (LogicalPathView, V))
    ensures
        assoc_map(s.push(p)) == assoc_map(s).insert(p.0, p.1),
{
    assert(s.push(p).drop_last() =~= s);
    assert(s.push(p).last() == p);
}

pub proof fn lemma_assoc_map_remove<V>(s: Seq<(LogicalPathView, V)>, j: int)
    requires
        unique_keys(s),
        0 <= j < s.len(),
    ensures
        assoc_map(s.remove(j)) == assoc_map(s).remove(s[j].0),
    decreases s.len(),
{
    if j == s.len() - 1 {
        assert(s.remove(j) =~= s.drop_last());
        lemma_assoc_map_dom(s.drop_last());
        assert forall|i: int| 0 <= i < s.drop_last().len() implies s.drop_last()[i].0 != s[j].0 by {
            assert(s[i].0 != s[j].0);
        }
        assert(!assoc_map(s.drop_last()).dom().contains(s[j].0));
        assert(assoc_map(s.drop_last()) =~= assoc_map(s.drop_last()).insert(s.last().0, s.last().1).remove(
            s[j].0,
        ));
    } else {
        assert(unique_keys(s.drop_last()));
        lemma_assoc_map_remove(s.drop_last(), j);
        assert(s.remove(j).drop_last() =~= s.drop_last().remove(j));
        assert(s.remove(j).last() == s.last());
        assert(s[j].0 != s.last().0);
        assert(assoc_map(s.remove(j)) == assoc_map(s.drop_last()).remove(s[j].0).insert(
            s.last().0,
            s.last().1,
        ));
        assert(assoc_map(s.drop_last()).remove(s[j].0).insert(s.last().0, s.last().1)
            =~= assoc_map(s.drop_last()).insert(s.last().0, s.last().1).remove(s[j].0));
    }
}

/// Decides whether two logical paths name the same address.
pub fn logical_path_eq(a: &LogicalPath, b: &LogicalPath) -> (r: bool)
    ensures
        r == (a@ == b@),
{
    if a.dirs.len() != b.dirs.len() {
        assert(a@.dirs.len() != b@.dirs.len());
        return false;
    }
    let mut i: usize = 0;
    while i < a.dirs.len()
        invariant
            a.dirs.len() == b.dirs.len(),
            i <= a.dirs.len(),
            forall|j: int| 0 <= j < i ==> a@.dirs[j] == b@.dirs[j],
        decreases a.dirs.len() - i,
    {
        if !(a.dirs[i] == b.dirs[i]) {
            assert(a@.dirs[i as int] != b@.dirs[i as int]);
            return false;
        }
        i = i + 1;
    }
    if !(a.stem == b.stem) {
        return false;
    }
    if !(a.ext == b.ext) {
        return false;
    }
    proof {
        assert(a@.dirs =~= b@.dirs);
        assert(a@ =~= b@);
    }
    true
}

/// The compile-once / render-once store: each compiled document is put
/// exactly once, keyed by its logical path, and taken out exactly once
/// by the render pass (a destructive read).
pub struct DocCache<T> {
    entries: Vec<(LogicalPath, T)>,
}

impl<T> DocCache<T> {
    /// The entries as pairs of path view and stored value.
    pub closed spec fn entries_view(&self) -> Seq<(LogicalPathView, T)> {
        Seq::new(self.entries@.len(), |i: int| (self.entries@[i].0@, self.entries@[i].1))
    }

    /// Well-formed: no logical path is stored twice.
    pub closed spec fn wf(&self) -> bool {
        unique_keys(self.entries_view())
    }

    pub fn new() -> (r: Self)
        ensures
            r.wf(),
            r@ == Map::<LogicalPathView, T>::empty(),
    {
        let r = DocCache { entries: Vec::new() };
        proof {
            assert(r.entries_view() =~= Seq::<(LogicalPathView, T)>::empty());
        }
        r
    }

    /// Stores a document under a logical path not yet present.
    pub fn put(&mut self, k: LogicalPath, v: T)
        requires
            old(self).wf(),
            !old(self)@.dom().contains(k@),
        ensures
            final(self).wf(),
            final(self)@ == old(self)@.insert(k@, v),
    {
        proof {
            lemma_assoc_map_dom(self.entries_view());
            lemma_assoc_map_push(self.entries_view(), (k@, v));
        }
        let ghost pre = self.entries_view();
        self.entries.push((k, v));
        proof {
            assert(self.entries_view() =~= pre.push((k@, v)));
        }
    }

    /// Destructive read: removes and returns the document cached at `k`,
    /// or reports that none is there.
    pub fn take(&mut self, k: &LogicalPath) -> (r: Option<T>)
        requires
            old(self).wf(),
        ensures
            final(self).wf(),
            match r {
                Option::Some(v) => old(self)@.dom().contains(k@) && v == old(self)@[k@]
                    && final(self)@ == old(self)@.remove(k@),
                Option::None => !old(self)@.dom().contains(k@) && final(self)@ == old(self)@,
            },
    {
        proof {
            lemma_assoc_map_dom(self.entries_view());
        }
        let mut i: usize = 0;
        while i < self.entries.len()
            invariant
                *self == *old(self),
                i <= self.entries.len(),
                forall|j: int| 0 <= j < i ==> self.entries_view()[j].0 != k@,
            decreases self.entries.len() - i,
        {
            if logical_path_eq(&self.entries[i].0, k) {
                proof {
                    lemma_assoc_map_get(self.entries_view(), i as int);
                    lemma_assoc_map_remove(self.entries_view(), i as int);
                }
                let ghost pre = self.entries_view();
                let (_, v) = self.entries.remove(i);
                proof {
                    assert(self.entries_view() =~= pre.remove(i as int));
                }
                return Option::Some(v);
            }
            i = i + 1;
        }
        Option::None
    }
}

impl<T> View for DocCache<T> {
    type V = Map<LogicalPathView, T>;

    closed spec fn view(&self) -> Map<LogicalPathView, T> {
        assoc_map(self.entries_view())
    }
}

/// Law: a cached document can be taken exactly once. Taking at a path the
/// metadata pass cached succeeds and removes the entry, so a second take
/// at the same path finds nothing.
pub proof fn lemma_take_once<T>(m: Map<LogicalPathView, T>, k: LogicalPathView)
    requires
        m.dom().contains(k),
    ensures
        !m.remove(k).dom().contains(k),
{
}

} // verus!
