//! A content-addressed arena: an append-only list of values that assigns
//! stable integer keys and maps equal content to one key.
//!
//! The abstract model of a store is the sequence of distinct abstract values
//! it holds, in insertion order. `intern_step` describes one insertion,
//! `store_key` names the key a value is filed under, and the proof functions
//! at the bottom state the interning laws the store guarantees.

use vstd::prelude::*;

verus! {

/// A value that can be filed in a [`Sutoa`]: it has an abstract view and an
/// executable equality test that decides equality of views.
pub trait InternKey: View + Sized {
    /// Decides whether two values have the same abstract content.
    fn key_eq(&self, other: &Self) -> (r: bool)
        ensures
            r == (self@ == other@),
    ;
}

impl InternKey for String {
    fn key_eq(&self, other: &Self) -> (r: bool) {
        self.eq(other)
    }
}

/// True when no two entries of the store hold the same value.
pub open spec fn dupfree<V>(store: Seq<V>) -> bool {
    forall|i: int, j: int| 0 <= i < j < store.len() ==> store[i] != store[j]
}

/// True when the store holds `v`.
pub open spec fn has_val<V>(store: Seq<V>, v: V) -> bool {
    exists|i: int| 0 <= i < store.len() && store[i] == v
}

/// The key `v` is filed under; meaningful only when the store holds `v`
/// (unique as long as the store is duplicate-free).
pub open spec fn store_key<V>(store: Seq<V>, v: V) -> int {
    choose|i: int| 0 <= i < store.len() && store[i] == v
}

/// The store after one insertion: unchanged if the value is already present,
/// extended at the end otherwise.
pub open spec fn intern_step<V>(store: Seq<V>, v: V) -> Seq<V> {
    if has_val(store, v) {
        store
    } else {
        store.push(v)
    }
}

/// The store after inserting each value of `vs` in order.
pub open spec fn intern_fold<V>(store: Seq<V>, vs: Seq<V>) -> Seq<V>
    decreases vs.len(),
{
    if vs.len() == 0 {
        store
    } else {
        intern_step(intern_fold(store, vs.drop_last()), vs.last())
    }
}

/// The content-addressed arena: `list` holds the distinct values in insertion
/// order, the position of a value in `list` is its key, and `next` is the key
/// the next fresh value would receive.
#[derive(Clone, Debug)]
pub struct Sutoa<T: InternKey> {
    pub list: Vec<T>,
    pub next: usize,
}

impl<T: InternKey> View for Sutoa<T> {
    type V = Seq<T::V>;

    open spec fn view(&self) -> Seq<T::V> {
        Seq::new(self.list@.len(), |i: int| self.list@[i]@)
    }
}

impl<T: InternKey> Sutoa<T> {
    /// The store's invariant: entries are pairwise distinct and `next` is the
    /// number of entries.
    pub open spec fn wf(&self) -> bool {
        &&& self.next == self.list@.len()
        &&& dupfree(self@)
    }

    /// An empty store.
    pub fn new() -> (s: Self)
        ensures
            s.wf(),
            s@ == Seq::<T::V>::empty(),
            s.next == 0,
    {
        let s = Self { list: Vec::new(), next: 0 };
        proof {
            assert(s@ =~= Seq::<T::V>::empty());
        }
        s
    }

    /// The number of distinct values stored so far.
    pub fn len(&self) -> (n: usize)
        ensures
            n == self@.len(),
    {
        self.list.len()
    }

    /// Files `val` and returns its key: the key it already has if equal
    /// content was inserted before, a fresh key otherwise.
    pub fn intern(&mut self, val: T) -> (key: usize)
        requires
            old(self).wf(),
        ensures
            final(self).wf(),
            final(self)@ == intern_step(old(self)@, val@),
            key < final(self)@.len(),
            final(self)@[key as int] == val@,
            key as int == store_key(final(self)@, val@),
            has_val(old(self)@, val@) ==> *final(self) == *old(self),
            !has_val(old(self)@, val@) ==> key == old(self)@.len() && final(self)@ == old(self)@.push(
                val@,
            ),
    {
        let n = self.list.len();
        let mut j: usize = 0;
        while j < n
            invariant
                n == self.list@.len(),
                j <= n,
                self.wf(),
                forall|i: int| 0 <= i < j ==> self@[i] != val@,
            decreases n - j,
        {
            if self.list[j].key_eq(&val) {
                proof {
                    assert(self@[j as int] == val@);
                    lemma_store_key_unique(self@, val@, j as int);
                }
                return j;
            }
            j = j + 1;
        }
        proof {
            assert(!has_val(self@, val@));
        }
        self.list.push(val);
        self.next = self.list.len();
        let key = self.list.len() - 1;
        proof {
            assert(final(self)@ =~= old(self)@.push(val@));
            lemma_intern_step_dupfree(old(self)@, val@);
            lemma_store_key_unique(final(self)@, val@, key as int);
        }
        key
    }

    /// Files `val`, keeping the key to itself.
    pub fn set(&mut self, val: T)
        requires
            old(self).wf(),
        ensures
            final(self).wf(),
            final(self)@ == intern_step(old(self)@, val@),
            has_val(old(self)@, val@) ==> *final(self) == *old(self),
    {
        let _key = self.intern(val);
    }

    /// The value filed under `key`, or nothing if no value has that key.
    pub fn get(&self, key: usize) -> (r: Option<&T>)
        ensures
            match r {
                Some(t) => key < self@.len() && t@ == self@[key as int],
                None => key >= self@.len(),
            },
    {
        if key < self.list.len() {
            Some(&self.list[key])
        } else {
            None
        }
    }

    /// The key `val` is filed under, or nothing if equal content was never
    /// inserted.
    pub fn get_key(&self, val: T) -> (r: Option<usize>)
        requires
            self.wf(),
        ensures
            match r {
                Some(k) => k < self@.len() && self@[k as int] == val@ && k as int == store_key(
                    self@,
                    val@,
                ),
                None => !has_val(self@, val@),
            },
    {
        let n = self.list.len();
        let mut j: usize = 0;
        while j < n
            invariant
                n == self.list@.len(),
                j <= n,
                self.wf(),
                forall|i: int| 0 <= i < j ==> self@[i] != val@,
            decreases n - j,
        {
            if self.list[j].key_eq(&val) {
                proof {
                    assert(self@[j as int] == val@);
                    lemma_store_key_unique(self@, val@, j as int);
                }
                return Some(j);
            }
            j = j + 1;
        }
        None
    }
}

/// In a duplicate-free store, `store_key` is the one index a value sits at.
pub proof fn lemma_store_key_unique<V>(store: Seq<V>, v: V, i: int)
    requires
        dupfree(store),
        0 <= i < store.len(),
        store[i] == v,
    ensures
        store_key(store, v) == i,
{
    let k = store_key(store, v);
    assert(0 <= k < store.len() && store[k] == v);
    if k != i {
        if k < i {
            assert(store[k] != store[i]);
        } else {
            assert(store[i] != store[k]);
        }
    }
}

/// One insertion keeps the store duplicate-free.
pub proof fn lemma_intern_step_dupfree<V>(store: Seq<V>, v: V)
    requires
        dupfree(store),
    ensures
        dupfree(intern_step(store, v)),
{
    if !has_val(store, v) {
        let s2 = store.push(v);
        assert forall|i: int, j: int| 0 <= i < j < s2.len() implies s2[i] != s2[j] by {
            if j == s2.len() - 1 {
                assert(s2[j] == v);
                assert(s2[i] == store[i]);
                assert(!has_val(store, v));
            }
        }
    }
}

/// Inserting identical content any number of times returns the same key every
/// time: the second and every later insertion leaves the store unchanged, so
/// the key looked up afterwards is the key assigned first.
pub proof fn lemma_intern_idempotent<V>(store: Seq<V>, v: V)
    ensures
        intern_step(intern_step(store, v), v) == intern_step(store, v),
        store_key(intern_step(intern_step(store, v), v), v) == store_key(intern_step(store, v), v),
{
    let s1 = intern_step(store, v);
    if !has_val(store, v) {
        assert(s1[store.len() as int] == v);
        assert(has_val(s1, v));
    }
}

/// Inserting pairwise-distinct values into an empty store files value `i`
/// under key `i`: the keys are pairwise distinct and the store ends up with
/// exactly as many entries as values were inserted.
pub proof fn lemma_intern_distinct<V>(vs: Seq<V>)
    requires
        dupfree(vs),
    ensures
        intern_fold(Seq::<V>::empty(), vs) == vs,
        forall|i: int| 0 <= i < vs.len() ==> store_key(vs, #[trigger] vs[i]) == i,
    decreases vs.len(),
{
    if vs.len() == 0 {
        assert(intern_fold(Seq::<V>::empty(), vs) =~= vs);
    } else {
        let front = vs.drop_last();
        assert(dupfree(front));
        lemma_intern_distinct(front);
        assert(!has_val(front, vs.last()));
        assert(intern_fold(Seq::<V>::empty(), vs) =~= vs);
    }
    assert forall|i: int| 0 <= i < vs.len() implies store_key(vs, #[trigger] vs[i]) == i by {
        lemma_store_key_unique(vs, vs[i], i);
    }
}

/// Keys never move: whatever a store already holds sits at the same key after
/// any further insertion.
pub proof fn lemma_intern_step_prefix<V>(store: Seq<V>, v: V)
    ensures
        store.len() <= intern_step(store, v).len(),
        forall|i: int| 0 <= i < store.len() ==> intern_step(store, v)[i] == store[i],
{
}

/// Keys never move over any number of insertions.
pub proof fn lemma_intern_fold_prefix<V>(store: Seq<V>, vs: Seq<V>)
    ensures
        store.len() <= intern_fold(store, vs).len(),
        forall|i: int| 0 <= i < store.len() ==> intern_fold(store, vs)[i] == store[i],
    decreases vs.len(),
{
    if vs.len() != 0 {
        lemma_intern_fold_prefix(store, vs.drop_last());
        lemma_intern_step_prefix(intern_fold(store, vs.drop_last()), vs.last());
    }
}

} // verus!
