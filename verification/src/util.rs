//! Small collections used by the analyses: duplicate-free sets of [`Out`]s
//! and of [`Node`]s, and an association map keyed by [`Out`].

use vstd::prelude::*;

use crate::dataflow::{Node, Out};

verus! {

/// A duplicate-free set of [`Out`]s, preserving insertion order.
#[derive(Debug, PartialEq, Eq)]
pub struct OutSet {
    items: Vec<Out>,
}

impl View for OutSet {
    type V = Seq<Out>;

    closed spec fn view(&self) -> Seq<Out> {
        self.items@
    }
}

impl OutSet {
    #[verifier::type_invariant]
    pub closed spec fn wf(self) -> bool {
        forall|i: int, j: int| 0 <= i < j < self@.len() ==> self@[i] != self@[j]
    }

    /// The empty set.
    pub fn new() -> (s: OutSet)
        ensures
            s@ =~= Seq::<Out>::empty(),
    {
        let items: Vec<Out> = Vec::new();
        proof {
            assert(items@.len() == 0);
        }
        OutSet { items }
    }

    /// The number of elements.
    pub fn len(&self) -> (n: usize)
        ensures
            n == self@.len(),
    {
        self.items.len()
    }

    /// Whether `o` is in the set.
    pub fn contains(&self, o: Out) -> (r: bool)
        ensures
            r == self@.contains(o),
    {
        let n = self.items.len();
        let mut i: usize = 0;
        while i < n
            invariant
                i <= n,
                n == self@.len(),
                forall|j: int| 0 <= j < i ==> self@[j] != o,
            decreases n - i,
        {
            if self.items[i] == o {
                return true;
            }
            i = i + 1;
        }
        false
    }

    /// The element at position `i`, in insertion order.
    pub fn get(&self, i: usize) -> (o: Out)
        requires
            i < self@.len(),
        ensures
            o == self@[i as int],
    {
        self.items[i]
    }

    /// Inserts `o`.  The set is unchanged if `o` is already present.
    pub fn insert(&mut self, o: Out)
        ensures
            final(self)@.contains(o),
            old(self)@.contains(o) ==> final(self)@ =~= old(self)@,
            !old(self)@.contains(o) ==> final(self)@ =~= old(self)@.push(o),
            forall|x: Out|
                #[trigger] final(self)@.contains(x) <==> (old(self)@.contains(x) || x == o),
    {
        proof {
            use_type_invariant(&*self);
        }
        if !self.contains(o) {
            let mut items: Vec<Out> = Vec::new();
            core::mem::swap(&mut self.items, &mut items);
            items.push(o);
            core::mem::swap(&mut self.items, &mut items);
            proof {
                assert(self@ =~= old(self)@.push(o));
                assert forall|x: Out| #[trigger]
                    self@.contains(x) implies (old(self)@.contains(x) || x == o) by {
                    let i = choose|i: int| 0 <= i < self@.len() && self@[i] == x;
                    if i < old(self)@.len() {
                        assert(old(self)@[i] == x);
                    }
                }
                assert forall|x: Out| old(self)@.contains(x) implies #[trigger]
                    self@.contains(x) by {
                    let i = choose|i: int| 0 <= i < old(self)@.len() && old(self)@[i] == x;
                    assert(self@[i] == x);
                }
                assert(self@[self@.len() - 1] == o);
                assert(self@.contains(o));
            }
        }
    }
}

/// A duplicate-free set of [`Node`]s, preserving insertion order.
#[derive(Debug, PartialEq, Eq)]
pub struct NodeSet {
    items: Vec<Node>,
}

impl View for NodeSet {
    type V = Seq<Node>;

    closed spec fn view(&self) -> Seq<Node> {
        self.items@
    }
}

impl NodeSet {
    #[verifier::type_invariant]
    pub closed spec fn wf(self) -> bool {
        forall|i: int, j: int| 0 <= i < j < self@.len() ==> self@[i] != self@[j]
    }

    /// The empty set.
    pub fn new() -> (s: NodeSet)
        ensures
            s@ =~= Seq::<Node>::empty(),
    {
        let items: Vec<Node> = Vec::new();
        proof {
            assert(items@.len() == 0);
        }
        NodeSet { items }
    }

    /// The number of elements.
    pub fn len(&self) -> (n: usize)
        ensures
            n == self@.len(),
    {
        self.items.len()
    }

    /// Whether `n` is in the set.
    pub fn contains(&self, n: Node) -> (r: bool)
        ensures
            r == self@.contains(n),
    {
        let len = self.items.len();
        let mut i: usize = 0;
        while i < len
            invariant
                i <= len,
                len == self@.len(),
                forall|j: int| 0 <= j < i ==> self@[j] != n,
            decreases len - i,
        {
            if self.items[i] == n {
                return true;
            }
            i = i + 1;
        }
        false
    }

    /// The element at position `i`, in insertion order.
    pub fn get(&self, i: usize) -> (n: Node)
        requires
            i < self@.len(),
        ensures
            n == self@[i as int],
    {
        self.items[i]
    }

    /// Inserts `n`.  The set is unchanged if `n` is already present.
    pub fn insert(&mut self, n: Node)
        ensures
            final(self)@.contains(n),
            old(self)@.contains(n) ==> final(self)@ =~= old(self)@,
            !old(self)@.contains(n) ==> final(self)@ =~= old(self)@.push(n),
            forall|x: Node|
                #[trigger] final(self)@.contains(x) <==> (old(self)@.contains(x) || x == n),
    {
        proof {
            use_type_invariant(&*self);
        }
        if !self.contains(n) {
            let mut items: Vec<Node> = Vec::new();
            core::mem::swap(&mut self.items, &mut items);
            items.push(n);
            core::mem::swap(&mut self.items, &mut items);
            proof {
                assert(self@ =~= old(self)@.push(n));
                assert forall|x: Node| #[trigger]
                    self@.contains(x) implies (old(self)@.contains(x) || x == n) by {
                    let i = choose|i: int| 0 <= i < self@.len() && self@[i] == x;
                    if i < old(self)@.len() {
                        assert(old(self)@[i] == x);
                    }
                }
                assert forall|x: Node| old(self)@.contains(x) implies #[trigger]
                    self@.contains(x) by {
                    let i = choose|i: int| 0 <= i < old(self)@.len() && old(self)@[i] == x;
                    assert(self@[i] == x);
                }
                assert(self@[self@.len() - 1] == n);
                assert(self@.contains(n));
            }
        }
    }
}

/// An association map from [`Out`]s to values, with duplicate-free keys.
#[derive(Debug)]
pub struct OutMap<V> {
    entries: Vec<(Out, V)>,
}

impl<V> View for OutMap<V> {
    type V = Map<Out, V>;

    closed spec fn view(&self) -> Map<Out, V> {
        assoc_view(self.entries@)
    }
}

impl<V> OutMap<V> {
    /// The entries of the map, in insertion order.
    pub closed spec fn kv(&self) -> Seq<(Out, V)> {
        self.entries@
    }

    #[verifier::type_invariant]
    pub closed spec fn wf(self) -> bool {
        forall|i: int, j: int|
            0 <= i < j < self.entries@.len() ==> (#[trigger] self.entries@[i]).0 != (
            #[trigger] self.entries@[j]).0
    }

    /// Relates an entry of the backing vector to the map view.
    proof fn lemma_entry(&self, i: int)
        requires
            self.wf(),
            0 <= i < self.entries@.len(),
        ensures
            self@.dom().contains(self.entries@[i].0),
            self@[self.entries@[i].0] == self.entries@[i].1,
    {
        let k = self.entries@[i].0;
        let j = choose|j: int| 0 <= j < self.entries@.len() && self.entries@[j].0 == k;
        assert(j == i);
    }

    /// Relates the entries to the map view, in both directions.  Exec
    /// callers obtain `wf` with `use_type_invariant`.
    pub proof fn lemma_entries(&self)
        requires
            self.wf(),
        ensures
            forall|i: int|
                0 <= i < self.kv().len() ==> #[trigger] self@.dom().contains(self.kv()[i].0)
                    && self@[self.kv()[i].0] == self.kv()[i].1,
            forall|k: Out|
                #[trigger] self@.dom().contains(k) ==> exists|i: int|
                    0 <= i < self.kv().len() && self.kv()[i].0 == k,
            forall|i: int, j: int|
                0 <= i < j < self.kv().len() ==> (#[trigger] self.kv()[i]).0 != (
                #[trigger] self.kv()[j]).0,
    {
        assert forall|i: int|
            0 <= i < self.kv().len() implies #[trigger] self@.dom().contains(self.kv()[i].0)
            && self@[self.kv()[i].0] == self.kv()[i].1 by {
            self.lemma_entry(i);
        }
        assert forall|k: Out| #[trigger] self@.dom().contains(k) implies exists|i: int|
            0 <= i < self.kv().len() && self.kv()[i].0 == k by {
            let i = choose|i: int| 0 <= i < self.entries@.len() && self.entries@[i].0 == k;
            assert(0 <= i < self.kv().len() && self.kv()[i].0 == k);
        }
    }
}

impl<V: Copy> OutMap<V> {
    /// The number of entries.
    pub fn num_entries(&self) -> (n: usize)
        ensures
            n == self.kv().len(),
    {
        self.entries.len()
    }

    /// The entry at position `i`.
    pub fn entry_at(&self, i: usize) -> (r: (Out, V))
        requires
            i < self.kv().len(),
        ensures
            r == self.kv()[i as int],
    {
        self.entries[i]
    }
}

impl<V: Copy> OutMap<V> {
    /// The empty map.
    pub fn new() -> (m: OutMap<V>)
        ensures
            m@ =~= Map::<Out, V>::empty(),
    {
        let entries: Vec<(Out, V)> = Vec::new();
        proof {
            assert(entries@.len() == 0);
        }
        let m = OutMap { entries };
        proof {
            assert(m@.dom() =~= Set::<Out>::empty());
        }
        m
    }

    /// The value at `k`, if `k` is present.
    pub fn get(&self, k: Out) -> (r: Option<V>)
        ensures
            match r {
                Some(v) => self@.dom().contains(k) && self@[k] == v,
                None => !self@.dom().contains(k),
            },
    {
        proof {
            use_type_invariant(&*self);
        }
        let n = self.entries.len();
        let mut i: usize = 0;
        while i < n
            invariant
                i <= n,
                n == self.entries@.len(),
                self.wf(),
                forall|j: int| 0 <= j < i ==> (#[trigger] self.entries@[j]).0 != k,
            decreases n - i,
        {
            let (key, value) = self.entries[i];
            if key == k {
                proof {
                    self.lemma_entry(i as int);
                }
                return Some(value);
            }
            i = i + 1;
        }
        proof {
            if self@.dom().contains(k) {
                let j = choose|j: int| 0 <= j < self.entries@.len() && self.entries@[j].0 == k;
                assert(self.entries@[j].0 != k);
            }
        }
        None
    }

    /// Binds `k` to `v`, replacing any earlier binding.
    pub fn insert(&mut self, k: Out, v: V)
        ensures
            final(self)@ =~= old(self)@.insert(k, v),
    {
        proof {
            use_type_invariant(&*self);
        }
        let n = self.entries.len();
        let mut i: usize = 0;
        while i < n
            invariant
                i <= n,
                n == self.entries@.len(),
                self.wf(),
                *self == *old(self),
                forall|j: int| 0 <= j < i ==> (#[trigger] self.entries@[j]).0 != k,
            decreases n - i,
        {
            let (key, _) = self.entries[i];
            if key == k {
                let mut entries: Vec<(Out, V)> = Vec::new();
                core::mem::swap(&mut self.entries, &mut entries);
                entries.set(i, (k, v));
                core::mem::swap(&mut self.entries, &mut entries);
                proof {
                    lemma_assoc_after_set(old(self).entries@, self.entries@, i as int, k, v);
                    assert(self@ =~= old(self)@.insert(k, v));
                }
                return ;
            }
            i = i + 1;
        }
        let mut entries: Vec<(Out, V)> = Vec::new();
        core::mem::swap(&mut self.entries, &mut entries);
        entries.push((k, v));
        core::mem::swap(&mut self.entries, &mut entries);
        proof {
            lemma_assoc_after_push(old(self).entries@, self.entries@, k, v);
            assert(self@ =~= old(self)@.insert(k, v));
        }
    }
}

/// The association viewed as a map.
spec fn assoc_view<V>(s: Seq<(Out, V)>) -> Map<Out, V> {
    Map::new(
        |k: Out| exists|i: int| 0 <= i < s.len() && s[i].0 == k,
        |k: Out|
            {
                let i = choose|i: int| 0 <= i < s.len() && s[i].0 == k;
                s[i].1
            },
    )
}

/// After overwriting entry `i` (whose key was already `k`) with `(k, v)`,
/// the association viewed as a map is the old map with `k` bound to `v`.
proof fn lemma_assoc_after_set<V>(olds: Seq<(Out, V)>, news: Seq<(Out, V)>, i: int, k: Out, v: V)
    requires
        0 <= i < olds.len(),
        news =~= olds.update(i, (k, v)),
        olds[i].0 == k,
        forall|a: int, b: int| 0 <= a < b < olds.len() ==> (#[trigger] olds[a]).0 != (
        #[trigger] olds[b]).0,
    ensures
        assoc_view(news) =~= assoc_view(olds).insert(k, v),
{
    assert forall|x: Out| #[trigger]
        assoc_view(news).dom().contains(x) == assoc_view(olds).insert(k, v).dom().contains(x) by {
        if exists|j: int| 0 <= j < news.len() && news[j].0 == x {
            let j = choose|j: int| 0 <= j < news.len() && news[j].0 == x;
            if j != i {
                assert(olds[j].0 == x);
            }
        }
        if exists|j: int| 0 <= j < olds.len() && olds[j].0 == x {
            let j = choose|j: int| 0 <= j < olds.len() && olds[j].0 == x;
            if j != i {
                assert(news[j].0 == x);
            }
        }
        if x == k {
            assert(news[i].0 == x);
        }
    }
    assert forall|x: Out| assoc_view(news).dom().contains(x) implies #[trigger] assoc_view(news)[x]
        == assoc_view(olds).insert(k, v)[x] by {
        let j = choose|j: int| 0 <= j < news.len() && news[j].0 == x;
        if x == k {
            if j != i {
                assert(olds[j].0 == k);
                assert(false);
            }
            assert(assoc_view(news)[x] == v);
        } else {
            assert(j != i);
            assert(olds[j].0 == x && olds[j].1 == news[j].1);
            let a = choose|a: int| 0 <= a < olds.len() && olds[a].0 == x;
            assert(a == j);
            assert(assoc_view(olds)[x] == olds[j].1);
            assert(assoc_view(news)[x] == news[j].1);
        }
    }
}

/// After pushing a fresh entry `(k, v)`, the association viewed as a map is
/// the old map with `k` bound to `v`.
proof fn lemma_assoc_after_push<V>(olds: Seq<(Out, V)>, news: Seq<(Out, V)>, k: Out, v: V)
    requires
        news =~= olds.push((k, v)),
        forall|a: int| 0 <= a < olds.len() ==> (#[trigger] olds[a]).0 != k,
        forall|a: int, b: int| 0 <= a < b < olds.len() ==> (#[trigger] olds[a]).0 != (
        #[trigger] olds[b]).0,
    ensures
        assoc_view(news) =~= assoc_view(olds).insert(k, v),
{
    assert forall|x: Out| #[trigger]
        assoc_view(news).dom().contains(x) == assoc_view(olds).insert(k, v).dom().contains(x) by {
        if exists|j: int| 0 <= j < news.len() && news[j].0 == x {
            let j = choose|j: int| 0 <= j < news.len() && news[j].0 == x;
            if j < olds.len() {
                assert(olds[j].0 == x);
            }
        }
        if exists|j: int| 0 <= j < olds.len() && olds[j].0 == x {
            let j = choose|j: int| 0 <= j < olds.len() && olds[j].0 == x;
            assert(news[j].0 == x);
        }
        if x == k {
            assert(news[news.len() - 1].0 == x);
        }
    }
    assert forall|x: Out| assoc_view(news).dom().contains(x) implies #[trigger] assoc_view(news)[x]
        == assoc_view(olds).insert(k, v)[x] by {
        let j = choose|j: int| 0 <= j < news.len() && news[j].0 == x;
        if x == k {
            if j < olds.len() {
                assert(olds[j].0 == k);
                assert(false);
            }
            assert(assoc_view(news)[x] == v);
        } else {
            assert(j < olds.len());
            assert(olds[j].0 == x && olds[j].1 == news[j].1);
            let a = choose|a: int| 0 <= a < olds.len() && olds[a].0 == x;
            assert(a == j);
            assert(assoc_view(olds)[x] == olds[j].1);
            assert(assoc_view(news)[x] == news[j].1);
        }
    }
}

} // verus!
