//! Small collections backed by vectors: a set without duplicates and a map
//! with distinct keys, whose elements are compared through their models.

use vstd::prelude::*;
use crate::symbols::{Symbol, Production};

verus! {

/// The models of a sequence of values.
pub open spec fn views<T: View>(s: Seq<T>) -> Seq<T::V> {
    s.map_values(|x: T| x@)
}

/// Values that can be compared and copied through their models.
pub trait Keyed: View + Sized {
    fn same_key(&self, other: &Self) -> (r: bool)
        ensures
            r == (self@ == other@),
    ;

    fn copy_key(&self) -> (r: Self)
        ensures
            r@ == self@,
    ;
}

impl Keyed for Symbol {
    fn same_key(&self, other: &Self) -> (r: bool) {
        self.same(other)
    }

    fn copy_key(&self) -> (r: Self) {
        self.copy()
    }
}

impl Keyed for String {
    fn same_key(&self, other: &Self) -> (r: bool) {
        *self == *other
    }

    fn copy_key(&self) -> (r: Self) {
        self.clone()
    }
}

impl Keyed for usize {
    fn same_key(&self, other: &Self) -> (r: bool) {
        *self == *other
    }

    fn copy_key(&self) -> (r: Self) {
        *self
    }
}

impl Keyed for Production {
    fn same_key(&self, other: &Self) -> (r: bool) {
        self.same(other)
    }

    fn copy_key(&self) -> (r: Self) {
        self.copy()
    }
}

impl<A: Keyed, B: Keyed> Keyed for (A, B) {
    fn same_key(&self, other: &Self) -> (r: bool) {
        self.0.same_key(&other.0) && self.1.same_key(&other.1)
    }

    fn copy_key(&self) -> (r: Self) {
        (self.0.copy_key(), self.1.copy_key())
    }
}

/// A finite set kept as a vector without repeated elements (by model).
#[derive(Debug)]
pub struct VecSet<T> {
    pub items: Vec<T>,
}

impl<T: View> View for VecSet<T> {
    type V = Seq<T::V>;

    open spec fn view(&self) -> Seq<T::V> {
        views(self.items@)
    }
}

impl<T: Keyed> VecSet<T> {
    pub open spec fn wf(&self) -> bool {
        self@.no_duplicates()
    }

    pub fn new() -> (r: Self)
        ensures
            r.wf(),
            r@ == Seq::<T::V>::empty(),
    {
        let r = VecSet { items: Vec::new() };
        assert(r@ =~= Seq::<T::V>::empty());
        r
    }

    pub fn contains(&self, x: &T) -> (r: bool)
        ensures
            r == self@.contains(x@),
    {
        let mut i: usize = 0;
        while i < self.items.len()
            invariant
                i <= self.items.len(),
                forall|j: int| 0 <= j < i ==> self.items@[j]@ != x@,
            decreases self.items.len() - i,
        {
            if self.items[i].same_key(x) {
                assert(self@[i as int] == x@);
                return true;
            }
            i += 1;
        }
        assert(!self@.contains(x@)) by {
            if self@.contains(x@) {
                let j = choose|j: int| 0 <= j < self@.len() && self@[j] == x@;
                assert(self.items@[j]@ == x@);
            }
        }
        false
    }

    /// Adds `x`; returns whether it was absent.
    pub fn insert(&mut self, x: T) -> (r: bool)
        requires
            old(self).wf(),
        ensures
            final(self).wf(),
            r == !old(self)@.contains(x@),
            r ==> final(self)@ == old(self)@.push(x@),
            !r ==> final(self)@ == old(self)@,
    {
        if self.contains(&x) {
            false
        } else {
            let ghost old_view = self@;
            self.items.push(x);
            assert(self@ =~= old_view.push(x@));
            true
        }
    }

    pub fn len(&self) -> (r: usize)
        ensures
            r == self@.len(),
    {
        self.items.len()
    }

    pub fn is_empty(&self) -> (r: bool)
        ensures
            r == (self@.len() == 0),
    {
        self.items.len() == 0
    }

    pub fn items(&self) -> (r: &Vec<T>)
        ensures
            views(r@) == self@,
    {
        &self.items
    }
}

/// The keys of a sequence of pairs.
pub open spec fn keys_of<A, B>(s: Seq<(A, B)>) -> Seq<A> {
    s.map_values(|e: (A, B)| e.0)
}

/// The map given by a sequence of pairs, later pairs taking precedence.
pub open spec fn map_of<A, B>(s: Seq<(A, B)>) -> Map<A, B>
    decreases s.len(),
{
    if s.len() == 0 {
        Map::empty()
    } else {
        map_of(s.drop_last()).insert(s.last().0, s.last().1)
    }
}

pub proof fn lemma_map_of_push<A, B>(s: Seq<(A, B)>, e: (A, B))
    ensures
        map_of(s.push(e)) == map_of(s).insert(e.0, e.1),
{
    assert(s.push(e).drop_last() =~= s);
}

pub proof fn lemma_map_of_dom<A, B>(s: Seq<(A, B)>, k: A)
    ensures
        map_of(s).contains_key(k) <==> keys_of(s).contains(k),
    decreases s.len(),
{
    if s.len() > 0 {
        lemma_map_of_dom(s.drop_last(), k);
        if keys_of(s).contains(k) {
            let i = choose|i: int| 0 <= i < keys_of(s).len() && keys_of(s)[i] == k;
            if i < s.len() - 1 {
                assert(keys_of(s.drop_last())[i] == k);
            }
        }
        if keys_of(s.drop_last()).contains(k) {
            let i = choose|i: int| 0 <= i < keys_of(s.drop_last()).len() && keys_of(s.drop_last())[i] == k;
            assert(keys_of(s)[i] == k);
        }
        if s.last().0 == k {
            assert(keys_of(s)[s.len() - 1] == k);
        }
    }
}

pub proof fn lemma_map_of_value<A, B>(s: Seq<(A, B)>, i: int)
    requires
        keys_of(s).no_duplicates(),
        0 <= i < s.len(),
    ensures
        map_of(s).contains_key(s[i].0),
        map_of(s)[s[i].0] == s[i].1,
    decreases s.len(),
{
    if i < s.len() - 1 {
        assert(keys_of(s.drop_last()) =~= keys_of(s).drop_last());
        lemma_map_of_value(s.drop_last(), i);
        assert(s.last().0 != s[i].0) by {
            assert(keys_of(s)[s.len() - 1] == s.last().0);
            assert(keys_of(s)[i] == s[i].0);
        }
    }
}

pub proof fn lemma_map_of_update<A, B>(s: Seq<(A, B)>, i: int, v: B)
    requires
        keys_of(s).no_duplicates(),
        0 <= i < s.len(),
    ensures
        map_of(s.update(i, (s[i].0, v))) == map_of(s).insert(s[i].0, v),
        keys_of(s.update(i, (s[i].0, v))) == keys_of(s),
    decreases s.len(),
{
    let t = s.update(i, (s[i].0, v));
    assert(keys_of(t) =~= keys_of(s));
    if i == s.len() - 1 {
        assert(t.drop_last() =~= s.drop_last());
        assert(map_of(t) =~= map_of(s).insert(s[i].0, v)) by {
            assert(map_of(s) == map_of(s.drop_last()).insert(s[i].0, s[i].1));
        }
    } else {
        assert(keys_of(s.drop_last()) =~= keys_of(s).drop_last());
        lemma_map_of_update(s.drop_last(), i, v);
        assert(t.drop_last() =~= s.drop_last().update(i, (s[i].0, v)));
        assert(s.last().0 != s[i].0) by {
            assert(keys_of(s)[s.len() - 1] == s.last().0);
            assert(keys_of(s)[i] == s[i].0);
        }
        assert(map_of(t) =~= map_of(s).insert(s[i].0, v));
    }
}

/// A finite map kept as a vector of pairs with distinct keys (by model).
#[derive(Debug)]
pub struct VecMap<K, V> {
    pub entries: Vec<(K, V)>,
}

impl<K: View, V: View> View for VecMap<K, V> {
    type V = Map<K::V, V::V>;

    open spec fn view(&self) -> Map<K::V, V::V> {
        map_of(views(self.entries@))
    }
}

impl<K: Keyed, V: View> VecMap<K, V> {
    pub open spec fn wf(&self) -> bool {
        keys_of(views(self.entries@)).no_duplicates()
    }

    pub fn new() -> (r: Self)
        ensures
            r.wf(),
            r@ == Map::<K::V, V::V>::empty(),
    {
        let r = VecMap { entries: Vec::new() };
        assert(views(r.entries@) =~= Seq::<(K::V, V::V)>::empty());
        r
    }

    /// The position of the entry for `k`.
    pub fn find(&self, k: &K) -> (r: Option<usize>)
        requires
            self.wf(),
        ensures
            r is None <==> !self@.contains_key(k@),
            r matches Some(i) ==> i < self.entries@.len() && self.entries@[i as int].0@ == k@
                && self@[k@] == self.entries@[i as int].1@,
    {
        let mut i: usize = 0;
        while i < self.entries.len()
            invariant
                self.wf(),
                i <= self.entries.len(),
                forall|j: int| 0 <= j < i ==> self.entries@[j].0@ != k@,
            decreases self.entries.len() - i,
        {
            if self.entries[i].0.same_key(k) {
                proof {
                    lemma_map_of_value(views(self.entries@), i as int);
                }
                return Some(i);
            }
            i += 1;
        }
        proof {
            lemma_map_of_dom(views(self.entries@), k@);
            if keys_of(views(self.entries@)).contains(k@) {
                let j = choose|j: int|
                    0 <= j < keys_of(views(self.entries@)).len() && keys_of(
                        views(self.entries@),
                    )[j] == k@;
                assert(self.entries@[j].0@ == k@);
            }
        }
        None
    }

    pub fn get(&self, k: &K) -> (r: Option<&V>)
        requires
            self.wf(),
        ensures
            r is Some <==> self@.contains_key(k@),
            r matches Some(v) ==> v@ == self@[k@],
    {
        match self.find(k) {
            Some(i) => Some(&self.entries[i].1),
            None => None,
        }
    }

    pub fn contains_key(&self, k: &K) -> (r: bool)
        requires
            self.wf(),
        ensures
            r == self@.contains_key(k@),
    {
        self.find(k).is_some()
    }

    /// Sets the value of `k` to `v`.
    pub fn insert(&mut self, k: K, v: V)
        requires
            old(self).wf(),
        ensures
            final(self).wf(),
            final(self)@ == old(self)@.insert(k@, v@),
    {
        match self.find(&k) {
            Some(i) => {
                let ghost s = views(self.entries@);
                proof {
                    lemma_map_of_update(s, i as int, v@);
                }
                self.entries.set(i, (k, v));
                assert(views(self.entries@) =~= s.update(i as int, (s[i as int].0, v@)));
            },
            None => {
                let ghost s = views(self.entries@);
                proof {
                    lemma_map_of_push(s, (k@, v@));
                    lemma_map_of_dom(s, k@);
                }
                self.entries.push((k, v));
                assert(views(self.entries@) =~= s.push((k@, v@)));
                assert(keys_of(views(self.entries@)) =~= keys_of(s).push(k@));
            },
        }
    }

    pub fn len(&self) -> (r: usize)
        ensures
            r == self.entries@.len(),
    {
        self.entries.len()
    }

    pub fn is_empty(&self) -> (r: bool)
        ensures
            r == (self.entries@.len() == 0),
    {
        self.entries.len() == 0
    }

    pub fn entries(&self) -> (r: &Vec<(K, V)>)
        ensures
            r@ == self.entries@,
    {
        &self.entries
    }
}

} // verus!
