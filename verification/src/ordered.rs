//! A map whose entries are kept in the order of their keys, so that walking it gives the same
//! order in every run.
use crate::text::chars_of;
use vstd::prelude::*;

verus! {

/// A type whose values can be the keys of an [`OrderedMap`].
pub trait Key: Sized {
    /// What a key stands for. Two keys are the same key when they stand for the same thing.
    type Model;

    /// What this key stands for.
    spec fn model(&self) -> Self::Model;

    /// The order of keys.
    spec fn below(a: Self::Model, b: Self::Model) -> bool;

    proof fn irreflexive(a: Self::Model)
        ensures
            !Self::below(a, a),
    ;

    proof fn transitive(a: Self::Model, b: Self::Model, c: Self::Model)
        requires
            Self::below(a, b),
            Self::below(b, c),
        ensures
            Self::below(a, c),
    ;

    proof fn total(a: Self::Model, b: Self::Model)
        ensures
            a == b || Self::below(a, b) || Self::below(b, a),
    ;

    /// Whether this key comes before `other`.
    fn is_below(&self, other: &Self) -> (r: bool)
        ensures
            r == Self::below(self.model(), other.model()),
    ;

    /// Whether this key and `other` are the same key.
    fn same(&self, other: &Self) -> (r: bool)
        ensures
            r == (self.model() == other.model()),
    ;
}

/// A map from `K` to `T`, in key order.
#[derive(Debug)]
pub struct OrderedMap<K, T> {
    entries: Vec<(K, T)>,
}

/// The keys of the first `n` entries.
spec fn keys_upto<K: Key, T>(m: &OrderedMap<K, T>, n: int) -> Set<K::Model> {
    Set::new(|k: K::Model| exists|i: int| i < n && #[trigger] m.has_at(k, i))
}

impl<K: Key, T> OrderedMap<K, T> {
    /// The entries, in the order in which a walk meets them.
    pub closed spec fn entries(&self) -> Seq<(K, T)> {
        self.entries@
    }

    /// The keys are in strictly ascending order; so no key occurs twice.
    pub open spec fn wf(&self) -> bool {
        forall|i: int, j: int|
            0 <= i < j < self.entries().len() ==> K::below(
                (#[trigger] self.entries()[i]).0.model(),
                (#[trigger] self.entries()[j]).0.model(),
            )
    }

    /// Where `k` stands among the entries.
    pub open spec fn has_at(&self, k: K::Model, i: int) -> bool {
        0 <= i < self.entries().len() && self.entries()[i].0.model() == k
    }

    /// The map that the entries make up.
    pub open spec fn view(&self) -> Map<K::Model, T> {
        Map::new(
            |k: K::Model| exists|i: int| #[trigger] self.has_at(k, i),
            |k: K::Model| self.entries()[choose|i: int| #[trigger] self.has_at(k, i)].1,
        )
    }

    /// The value at an entry's key is the entry's value.
    pub proof fn entry_in_view(&self, i: int)
        requires
            self.wf(),
            0 <= i < self.entries().len(),
        ensures
            self@.dom().contains(self.entries()[i].0.model()),
            self@[self.entries()[i].0.model()] == self.entries()[i].1,
    {
        let k = self.entries()[i].0.model();
        assert(self.has_at(k, i));
        let c = choose|j: int| #[trigger] self.has_at(k, j);
        K::irreflexive(k);
        if c < i {
            assert(K::below(self.entries()[c].0.model(), self.entries()[i].0.model()));
        } else if i < c {
            assert(K::below(self.entries()[i].0.model(), self.entries()[c].0.model()));
        }
    }

    /// A key in the map stands among the entries.
    pub proof fn key_has_entry(&self, k: K::Model) -> (i: int)
        requires
            self.wf(),
            self@.dom().contains(k),
        ensures
            0 <= i < self.entries().len(),
            self.entries()[i].0.model() == k,
            self.entries()[i].1 == self@[k],
    {
        let i = choose|i: int| #[trigger] self.has_at(k, i);
        assert(self.has_at(k, i));
        i
    }

    /// There are as many keys as entries.
    pub proof fn len_is(&self)
        requires
            self.wf(),
        ensures
            self@.dom().finite(),
            self@.dom().len() == self.entries().len(),
    {
        self.len_upto(self.entries().len() as int);
        assert(self@.dom() =~= keys_upto(self, self.entries().len() as int));
    }

    proof fn len_upto(&self, n: int)
        requires
            self.wf(),
            0 <= n <= self.entries().len(),
        ensures
            keys_upto(self, n).finite(),
            keys_upto(self, n).len() == n,
        decreases n,
    {
        if n == 0 {
            assert(keys_upto(self, 0) =~= Set::<K::Model>::empty());
        } else {
            self.len_upto(n - 1);
            let k = self.entries()[n - 1].0.model();
            K::irreflexive(k);
            assert(!keys_upto(self, n - 1).contains(k)) by {
                if keys_upto(self, n - 1).contains(k) {
                    let i = choose|i: int| i < n - 1 && #[trigger] self.has_at(k, i);
                    assert(K::below(self.entries()[i].0.model(), self.entries()[n - 1].0.model()));
                }
            }
            assert(self.has_at(k, n - 1));
            assert(keys_upto(self, n) =~= keys_upto(self, n - 1).insert(k)) by {
                assert forall|x: K::Model| keys_upto(self, n).contains(x) implies keys_upto(
                    self,
                    n - 1,
                ).insert(k).contains(x) by {
                    let i = choose|i: int| i < n && #[trigger] self.has_at(x, i);
                    if i < n - 1 {
                        assert(self.has_at(x, i));
                    }
                }
            }
        }
    }

    /// An empty map.
    pub fn new() -> (m: Self)
        ensures
            m.wf(),
            m@ == Map::<K::Model, T>::empty(),
            m.entries() == Seq::<(K, T)>::empty(),
    {
        let m = OrderedMap { entries: Vec::new() };
        assert(m@ =~= Map::<K::Model, T>::empty());
        m
    }

    /// How many entries there are.
    pub fn len(&self) -> (n: usize)
        ensures
            n == self.entries().len(),
    {
        self.entries.len()
    }

    /// The key of the entry at `i`.
    pub fn key_at(&self, i: usize) -> (k: &K)
        requires
            i < self.entries().len(),
        ensures
            *k == self.entries()[i as int].0,
    {
        &self.entries[i].0
    }

    /// The value of the entry at `i`.
    pub fn value_at(&self, i: usize) -> (v: &T)
        requires
            i < self.entries().len(),
        ensures
            *v == self.entries()[i as int].1,
    {
        &self.entries[i].1
    }

    /// The first entry whose key does not come before `k`.
    fn place(&self, k: &K) -> (at: usize)
        requires
            self.wf(),
        ensures
            at <= self.entries().len(),
            forall|j: int|
                0 <= j < at ==> K::below((#[trigger] self.entries()[j]).0.model(), k.model()),
            forall|j: int|
                at <= j < self.entries().len() ==> !K::below(
                    (#[trigger] self.entries()[j]).0.model(),
                    k.model(),
                ),
    {
        let mut at: usize = 0;
        while at < self.entries.len()
            invariant
                self.wf(),
                at <= self.entries().len(),
                forall|j: int|
                    0 <= j < at ==> K::below((#[trigger] self.entries()[j]).0.model(), k.model()),
            decreases self.entries().len() - at,
        {
            if !self.entries[at].0.is_below(k) {
                proof {
                    assert forall|j: int| at <= j < self.entries().len() implies !K::below(
                        (#[trigger] self.entries()[j]).0.model(),
                        k.model(),
                    ) by {
                        if at < j && K::below(self.entries()[j].0.model(), k.model()) {
                            K::transitive(
                                self.entries()[at as int].0.model(),
                                self.entries()[j].0.model(),
                                k.model(),
                            );
                        }
                    }
                }
                return at;
            }
            at = at + 1;
        }
        at
    }

    /// A key that is not at its place is not in the map.
    proof fn absent(&self, k: K::Model, at: int)
        requires
            self.wf(),
            0 <= at <= self.entries().len(),
            at < self.entries().len() ==> self.entries()[at].0.model() != k,
            forall|j: int| 0 <= j < at ==> K::below((#[trigger] self.entries()[j]).0.model(), k),
            forall|j: int|
                at <= j < self.entries().len() ==> !K::below(
                    (#[trigger] self.entries()[j]).0.model(),
                    k,
                ),
        ensures
            !self@.dom().contains(k),
            forall|j: int|
                at <= j < self.entries().len() ==> K::below(
                    k,
                    (#[trigger] self.entries()[j]).0.model(),
                ),
    {
        K::irreflexive(k);
        assert forall|j: int| at <= j < self.entries().len() implies K::below(
            k,
            (#[trigger] self.entries()[j]).0.model(),
        ) by {
            K::total(k, self.entries()[at].0.model());
            K::total(k, self.entries()[j].0.model());
            if at < j && self.entries()[j].0.model() == k {
                assert(K::below(self.entries()[at].0.model(), self.entries()[j].0.model()));
            }
        }
        if self@.dom().contains(k) {
            let i = self.key_has_entry(k);
        }
    }

    /// The value at `k`.
    pub fn get(&self, k: &K) -> (v: Option<&T>)
        requires
            self.wf(),
        ensures
            v is Some <==> self@.dom().contains(k.model()),
            v matches Some(x) ==> *x == self@[k.model()],
    {
        let at: usize = self.place(k);
        if at < self.entries.len() && self.entries[at].0.same(k) {
            proof {
                self.entry_in_view(at as int);
            }
            Some(&self.entries[at].1)
        } else {
            proof {
                self.absent(k.model(), at as int);
            }
            None
        }
    }

    /// Whether `k` is in the map.
    pub fn contains_key(&self, k: &K) -> (r: bool)
        requires
            self.wf(),
        ensures
            r == self@.dom().contains(k.model()),
    {
        self.get(k).is_some()
    }

    /// Puts `v` at `k`, and gives back what stood there.
    pub fn insert(&mut self, k: K, v: T) -> (was: Option<T>)
        requires
            old(self).wf(),
        ensures
            final(self).wf(),
            final(self)@ == old(self)@.insert(k.model(), v),
            was is Some <==> old(self)@.dom().contains(k.model()),
            was matches Some(x) ==> x == old(self)@[k.model()],
    {
        let at: usize = self.place(&k);
        let ghost before = *self;
        if at < self.entries.len() && self.entries[at].0.same(&k) {
            proof {
                self.entry_in_view(at as int);
            }
            let mut slot: T = v;
            core::mem::swap(&mut self.entries[at].1, &mut slot);
            proof {
                assert(self.entries().len() == before.entries().len());
                assert forall|j: int| 0 <= j < self.entries().len() implies (
                #[trigger] self.entries()[j]).0 == before.entries()[j].0 && (j != at
                    ==> self.entries()[j] == before.entries()[j]) by {}
                assert forall|a: int, b: int| 0 <= a < b < self.entries().len() implies K::below(
                    (#[trigger] self.entries()[a]).0.model(),
                    (#[trigger] self.entries()[b]).0.model(),
                ) by {
                    assert(K::below(before.entries()[a].0.model(), before.entries()[b].0.model()));
                }
                self.same_as_insert(&before, k.model(), v, at as int, false);
            }
            Some(slot)
        } else {
            proof {
                self.absent(k.model(), at as int);
            }
            self.entries.insert(at, (k, v));
            proof {
                assert forall|a: int, b: int| 0 <= a < b < self.entries().len() implies K::below(
                    (#[trigger] self.entries()[a]).0.model(),
                    (#[trigger] self.entries()[b]).0.model(),
                ) by {
                    let x = if a < at {
                        a
                    } else {
                        a - 1
                    };
                    let y = if b < at {
                        b
                    } else {
                        b - 1
                    };
                    if a != at {
                        assert(self.entries()[a] == before.entries()[x]);
                    }
                    if b != at {
                        assert(self.entries()[b] == before.entries()[y]);
                    }
                }
                self.same_as_insert(&before, k.model(), v, at as int, true);
            }
            None
        }
    }

    proof fn same_as_insert(&self, before: &Self, k: K::Model, v: T, at: int, fresh: bool)
        requires
            self.wf(),
            before.wf(),
            0 <= at < self.entries().len(),
            self.entries()[at].0.model() == k,
            self.entries()[at].1 == v,
            self.entries().len() == before.entries().len() + (if fresh {
                1int
            } else {
                0
            }),
            forall|j: int| 0 <= j < at ==> #[trigger] self.entries()[j] == before.entries()[j],
            forall|j: int|
                at < j < self.entries().len() ==> #[trigger] self.entries()[j]
                    == before.entries()[if fresh {
                    j - 1
                } else {
                    j
                }],
            !fresh ==> before.entries()[at].0.model() == k,
        ensures
            self@ == before@.insert(k, v),
    {
        self.entry_in_view(at);
        let other = before@.insert(k, v);
        assert forall|x: K::Model| #[trigger] self@.dom().contains(x) == other.dom().contains(
            x,
        ) && (self@.dom().contains(x) ==> self@[x] == other[x]) by {
            if x != k {
                if self@.dom().contains(x) {
                    let i = self.key_has_entry(x);
                    let j = if fresh && i > at {
                        i - 1
                    } else {
                        i
                    };
                    assert(self.entries()[i] == before.entries()[j]);
                    before.entry_in_view(j);
                }
                if before@.dom().contains(x) {
                    let j = before.key_has_entry(x);
                    let i = if fresh && j >= at {
                        j + 1
                    } else {
                        j
                    };
                    assert(self.entries()[i] == before.entries()[j]);
                    self.entry_in_view(i);
                }
            }
        }
        assert(self@ =~= other);
    }

    /// Takes `k` out of the map, and gives back what stood there.
    pub fn remove(&mut self, k: &K) -> (was: Option<T>)
        requires
            old(self).wf(),
        ensures
            final(self).wf(),
            final(self)@ == old(self)@.remove(k.model()),
            was is Some <==> old(self)@.dom().contains(k.model()),
            was matches Some(x) ==> x == old(self)@[k.model()],
    {
        let at: usize = self.place(k);
        let ghost before = *self;
        if at < self.entries.len() && self.entries[at].0.same(k) {
            proof {
                self.entry_in_view(at as int);
            }
            let (_, v) = self.entries.remove(at);
            proof {
                assert forall|j: int| 0 <= j < self.entries().len() implies #[trigger] self.entries()[j]
                    == before.entries()[if j < at {
                    j
                } else {
                    j + 1
                }] by {}
                assert forall|x: K::Model| #[trigger] self@.dom().contains(x)
                    == before@.remove(k.model()).dom().contains(x) && (self@.dom().contains(x)
                    ==> self@[x] == before@[x]) by {
                    if self@.dom().contains(x) {
                        let i = self.key_has_entry(x);
                        let j = if i < at {
                            i
                        } else {
                            i + 1
                        };
                        before.entry_in_view(j);
                        K::irreflexive(x);
                        if x == k.model() {
                            if j < at {
                                assert(K::below(
                                    before.entries()[j].0.model(),
                                    before.entries()[at as int].0.model(),
                                ));
                            } else {
                                assert(K::below(
                                    before.entries()[at as int].0.model(),
                                    before.entries()[j].0.model(),
                                ));
                            }
                        }
                    }
                    if before@.dom().contains(x) && x != k.model() {
                        let j = before.key_has_entry(x);
                        let i = if j < at {
                            j
                        } else {
                            j - 1
                        };
                        assert(self.entries()[i] == before.entries()[j]);
                        self.entry_in_view(i);
                    }
                }
                assert(self@ =~= before@.remove(k.model()));
            }
            Some(v)
        } else {
            proof {
                self.absent(k.model(), at as int);
                assert(self@ =~= self@.remove(k.model()));
            }
            None
        }
    }
}

impl<K: Key + Clone, T: Clone> OrderedMap<K, T> {
    /// A copy of the map, entry by entry.
    pub fn copied(&self) -> (m: Self)
        ensures
            m.entries().len() == self.entries().len(),
            forall|i: int|
                0 <= i < self.entries().len() ==> cloned(
                    (#[trigger] self.entries()[i]).0,
                    m.entries()[i].0,
                ) && cloned(self.entries()[i].1, m.entries()[i].1),
    {
        let mut entries: Vec<(K, T)> = Vec::new();
        let mut i: usize = 0;
        while i < self.entries.len()
            invariant
                i <= self.entries@.len(),
                entries@.len() == i,
                forall|j: int|
                    0 <= j < i ==> cloned((#[trigger] self.entries@[j]).0, entries@[j].0) && cloned(
                        self.entries@[j].1,
                        entries@[j].1,
                    ),
            decreases self.entries@.len() - i,
        {
            let k: K = self.entries[i].0.clone();
            let v: T = self.entries[i].1.clone();
            entries.push((k, v));
            i = i + 1;
        }
        OrderedMap { entries }
    }
}

/// Texts in the order of their characters' code points, a text before its extensions. It is also
/// the order of their UTF-8 bytes.
pub open spec fn text_below(a: Seq<char>, b: Seq<char>) -> bool
    decreases a.len(),
{
    if b.len() == 0 {
        false
    } else if a.len() == 0 {
        true
    } else if a[0] != b[0] {
        a[0] < b[0]
    } else {
        text_below(a.drop_first(), b.drop_first())
    }
}

pub proof fn text_irreflexive(a: Seq<char>)
    ensures
        !text_below(a, a),
    decreases a.len(),
{
    if a.len() > 0 {
        text_irreflexive(a.drop_first());
    }
}

pub proof fn text_transitive(a: Seq<char>, b: Seq<char>, c: Seq<char>)
    requires
        text_below(a, b),
        text_below(b, c),
    ensures
        text_below(a, c),
    decreases a.len(),
{
    if a.len() > 0 && a[0] == b[0] && b[0] == c[0] {
        text_transitive(a.drop_first(), b.drop_first(), c.drop_first());
    }
}

pub proof fn text_total(a: Seq<char>, b: Seq<char>)
    ensures
        a == b || text_below(a, b) || text_below(b, a),
    decreases a.len(),
{
    if a.len() == 0 && b.len() == 0 {
        assert(a == b);
    } else if a.len() > 0 && b.len() > 0 && a[0] == b[0] {
        text_total(a.drop_first(), b.drop_first());
        if a.drop_first() == b.drop_first() {
            assert(a == seq![a[0]] + a.drop_first());
            assert(b == seq![b[0]] + b.drop_first());
        }
    }
}

/// Whether `a` comes before `b`.
pub fn text_is_below(a: &str, b: &str) -> (r: bool)
    ensures
        r == text_below(a@, b@),
{
    let x: Vec<char> = chars_of(a);
    let y: Vec<char> = chars_of(b);
    let mut i: usize = 0;
    assert(a@.skip(0) == a@);
    assert(b@.skip(0) == b@);
    while i < x.len() && i < y.len() && x[i] == y[i]
        invariant
            x@ == a@,
            y@ == b@,
            i <= x@.len(),
            i <= y@.len(),
            text_below(a@, b@) == text_below(a@.skip(i as int), b@.skip(i as int)),
        decreases x@.len() - i,
    {
        assert(a@.skip(i as int).drop_first() == a@.skip(i + 1));
        assert(b@.skip(i as int).drop_first() == b@.skip(i + 1));
        i = i + 1;
    }
    if i < y.len() {
        i >= x.len() || x[i] < y[i]
    } else {
        false
    }
}

/// Numbers in strictly ascending order.
pub open spec fn ascending(ids: Seq<u128>) -> bool {
    forall|i: int, j: int| 0 <= i < j < ids.len() ==> (#[trigger] ids[i]) < (#[trigger] ids[j])
}

/// The sequence has exactly the members of the set.
pub open spec fn lists(ids: Seq<u128>, set: Set<u128>) -> bool {
    forall|id: u128| #[trigger] set.contains(id) <==> ids.contains(id)
}

/// The members of a set, in ascending order.
pub open spec fn in_order(set: Set<u128>) -> Seq<u128> {
    choose|ids: Seq<u128>| ascending(ids) && lists(ids, set)
}

proof fn ascending_agree(a: Seq<u128>, b: Seq<u128>, set: Set<u128>, n: int)
    requires
        ascending(a),
        ascending(b),
        lists(a, set),
        lists(b, set),
        0 <= n <= a.len(),
    ensures
        n <= b.len(),
        a.take(n) == b.take(n),
    decreases n,
{
    if n > 0 {
        let m = n - 1;
        ascending_agree(a, b, set, m);
        assert(a.contains(a[m]));
        assert(set.contains(a[m]));
        let j = choose|j: int| 0 <= j < b.len() && b[j] == a[m];
        if j < m {
            assert(a.take(m)[j] == b.take(m)[j]);
            assert(a[j] < a[m]);
        }
        assert(b.contains(b[m]));
        assert(set.contains(b[m]));
        let i = choose|i: int| 0 <= i < a.len() && a[i] == b[m];
        if i < m {
            assert(a.take(m)[i] == b.take(m)[i]);
            assert(b[i] < b[m]);
        }
        if j > m {
            assert(b[m] < b[j]);
        }
        if i > m {
            assert(a[m] < a[i]);
        }
        assert(a.take(n) =~= a.take(m).push(a[m]));
        assert(b.take(n) =~= b.take(m).push(b[m]));
    }
}

/// There is one ascending sequence of a set's members.
pub proof fn in_order_is(ids: Seq<u128>, set: Set<u128>)
    requires
        ascending(ids),
        lists(ids, set),
    ensures
        in_order(set) == ids,
{
    let other = in_order(set);
    ascending_agree(ids, other, set, ids.len() as int);
    ascending_agree(other, ids, set, other.len() as int);
    assert(ids.take(ids.len() as int) =~= ids);
    assert(other.take(other.len() as int) =~= other);
}

} // verus!
