//! A map from identifiers to values that is walked in ascending key order.
//!
//! The entries are kept in a vector sorted by key, so two maps with the same
//! bindings are the same sequence. The view is that sequence of
//! `(key, value)` pairs; lookups and updates are stated over it.
//!
//! This stands where a `BTreeMap<String, V>` would: vstd specifies the maps
//! and sets of std for keys whose order it knows, and it knows none for
//! `String`, so nothing could be proved of one. The order here is the one
//! that std gives to strings, proved a strict total order in [`crate::text`].

use crate::text::{
    lemma_text_lt_asymmetric, lemma_text_lt_total, lemma_text_lt_transitive, text_less, text_lt,
};
use vstd::prelude::*;

verus! {

/// A key as contracts see it.
pub type Key = Seq<char>;

/// The number of leading entries whose key comes before `k`. In a sorted
/// sequence this is the index at which `k` is found or belongs.
pub open spec fn rank<T>(s: Seq<(Key, T)>, k: Key) -> nat
    decreases s.len(),
{
    if s.len() == 0 || !text_lt(s[0].0, k) {
        0
    } else {
        1 + rank(s.skip(1), k)
    }
}

/// The keys ascend strictly.
pub open spec fn keys_sorted<T>(s: Seq<(Key, T)>) -> bool {
    forall|i: int, j: int| #![trigger s[i], s[j]] 0 <= i < j < s.len() ==> text_lt(s[i].0, s[j].0)
}

/// `k` is bound: the entry at its rank has it.
pub open spec fn has_key<T>(s: Seq<(Key, T)>, k: Key) -> bool {
    rank(s, k) < s.len() && s[rank(s, k) as int].0 == k
}

/// The value bound to `k`, if any.
pub open spec fn lookup<T>(s: Seq<(Key, T)>, k: Key) -> Option<T> {
    if has_key(s, k) {
        Some(s[rank(s, k) as int].1)
    } else {
        None
    }
}

/// The sequence with `k` bound to `v`, in place of an earlier binding or at
/// the place that keeps the keys ascending.
pub open spec fn upsert<T>(s: Seq<(Key, T)>, k: Key, v: T) -> Seq<(Key, T)> {
    if has_key(s, k) {
        s.update(rank(s, k) as int, (k, v))
    } else {
        s.insert(rank(s, k) as int, (k, v))
    }
}

/// The sequence without a binding for `k`.
pub open spec fn erase<T>(s: Seq<(Key, T)>, k: Key) -> Seq<(Key, T)> {
    if has_key(s, k) {
        s.remove(rank(s, k) as int)
    } else {
        s
    }
}

/// The entries before the rank of `k` have smaller keys, and the entry at
/// the rank, if there is one, has not.
pub proof fn lemma_rank<T>(s: Seq<(Key, T)>, k: Key)
    ensures
        rank(s, k) <= s.len(),
        forall|j: int| 0 <= j < rank(s, k) ==> text_lt(#[trigger] s[j].0, k),
        rank(s, k) < s.len() ==> !text_lt(s[rank(s, k) as int].0, k),
    decreases s.len(),
{
    if s.len() == 0 || !text_lt(s[0].0, k) {
    } else {
        lemma_rank(s.skip(1), k);
        assert forall|j: int| 0 <= j < rank(s, k) implies text_lt(#[trigger] s[j].0, k) by {
            if j > 0 {
                assert(s[j] == s.skip(1)[j - 1]);
            }
        }
        if rank(s, k) < s.len() {
            assert(s[rank(s, k) as int] == s.skip(1)[rank(s, k) - 1]);
        }
    }
}

/// The rank of `k` is the index before which every key is smaller and at
/// which the key is not.
pub proof fn lemma_rank_is<T>(s: Seq<(Key, T)>, k: Key, r: int)
    requires
        0 <= r <= s.len(),
        forall|j: int| 0 <= j < r ==> text_lt(#[trigger] s[j].0, k),
        r < s.len() ==> !text_lt(s[r].0, k),
    ensures
        rank(s, k) == r,
    decreases r,
{
    if r > 0 {
        assert(text_lt(s[0].0, k));
        assert forall|j: int| 0 <= j < r - 1 implies text_lt(#[trigger] s.skip(1)[j].0, k) by {
            assert(s.skip(1)[j] == s[j + 1]);
        }
        if r < s.len() {
            assert(s.skip(1)[r - 1] == s[r]);
        }
        lemma_rank_is(s.skip(1), k, r - 1);
    }
}

/// In a sorted sequence every entry from the rank of `k` on has a key that
/// is `k` or comes after it, and only the entry at the rank can have `k`.
pub proof fn lemma_rank_sorted<T>(s: Seq<(Key, T)>, k: Key)
    requires
        keys_sorted(s),
    ensures
        forall|j: int| rank(s, k) <= j < s.len() ==> !text_lt(#[trigger] s[j].0, k),
        forall|j: int| 0 <= j < s.len() && #[trigger] s[j].0 == k ==> j == rank(s, k),
        !has_key(s, k) ==> forall|j: int| rank(s, k) <= j < s.len() ==> text_lt(k, #[trigger] s[j].0),
{
    lemma_rank(s, k);
    let r = rank(s, k) as int;
    assert forall|j: int| r <= j < s.len() implies !text_lt(#[trigger] s[j].0, k) by {
        if j > r && text_lt(s[j].0, k) {
            assert(text_lt(s[r].0, s[j].0));
            lemma_text_lt_transitive(s[r].0, s[j].0, k);
        }
    }
    assert forall|j: int| 0 <= j < s.len() && #[trigger] s[j].0 == k implies j == r by {
        if j < r {
            lemma_text_lt_asymmetric(s[j].0, k);
        } else if j > r {
            assert(text_lt(s[r].0, s[j].0));
        }
    }
    if !has_key(s, k) {
        assert forall|j: int| r <= j < s.len() implies text_lt(k, #[trigger] s[j].0) by {
            lemma_text_lt_total(k, s[j].0);
            if s[j].0 == k {
                assert(j == r);
            }
        }
    }
}

/// Binding a key keeps the keys ascending.
pub proof fn lemma_upsert_sorted<T>(s: Seq<(Key, T)>, k: Key, v: T)
    requires
        keys_sorted(s),
    ensures
        keys_sorted(upsert(s, k, v)),
{
    lemma_rank(s, k);
    lemma_rank_sorted(s, k);
    let r = rank(s, k) as int;
    let t = upsert(s, k, v);
    if has_key(s, k) {
        assert forall|i: int, j: int| 0 <= i < j < t.len() implies text_lt(t[i].0, t[j].0) by {
            assert(text_lt(s[i].0, s[j].0));
        }
    } else {
        assert forall|i: int, j: int| 0 <= i < j < t.len() implies text_lt(t[i].0, t[j].0) by {
            if j < r {
                assert(text_lt(s[i].0, s[j].0));
            } else if j == r {
                assert(t[i] == s[i]);
            } else if i < r {
                assert(text_lt(s[i].0, s[j - 1].0));
            } else if i == r {
                assert(t[j] == s[j - 1]);
            } else {
                assert(text_lt(s[i - 1].0, s[j - 1].0));
            }
        }
    }
}

/// Dropping a key keeps the keys ascending.
pub proof fn lemma_erase_sorted<T>(s: Seq<(Key, T)>, k: Key)
    requires
        keys_sorted(s),
    ensures
        keys_sorted(erase(s, k)),
{
    lemma_rank(s, k);
    let r = rank(s, k) as int;
    let t = erase(s, k);
    if has_key(s, k) {
        assert forall|i: int, j: int| 0 <= i < j < t.len() implies text_lt(t[i].0, t[j].0) by {
            let a = if i < r { i } else { i + 1 };
            let b = if j < r { j } else { j + 1 };
            assert(text_lt(s[a].0, s[b].0));
        }
    }
}

/// In a sorted sequence a key is bound iff some entry has it, and then to
/// that entry's value.
pub proof fn lemma_lookup_at<T>(s: Seq<(Key, T)>, k: Key, j: int)
    requires
        keys_sorted(s),
        0 <= j < s.len(),
        s[j].0 == k,
    ensures
        has_key(s, k),
        rank(s, k) == j,
        lookup(s, k) == Some(s[j].1),
{
    lemma_rank_sorted(s, k);
}

/// A key that no entry has is not bound.
pub proof fn lemma_lookup_absent<T>(s: Seq<(Key, T)>, k: Key)
    requires
        forall|j: int| 0 <= j < s.len() ==> (#[trigger] s[j]).0 != k,
    ensures
        !has_key(s, k),
        lookup(s, k) is None,
{
    lemma_rank(s, k);
}

/// After binding `k` to `v`, `k` is bound to `v`.
pub proof fn lemma_lookup_upsert_same<T>(s: Seq<(Key, T)>, k: Key, v: T)
    requires
        keys_sorted(s),
    ensures
        lookup(upsert(s, k, v), k) == Some(v),
{
    lemma_rank(s, k);
    lemma_upsert_sorted(s, k, v);
    lemma_lookup_at(upsert(s, k, v), k, rank(s, k) as int);
}

/// Binding `k` leaves every other key as it was.
pub proof fn lemma_lookup_upsert_other<T>(s: Seq<(Key, T)>, k: Key, v: T, other: Key)
    requires
        keys_sorted(s),
        other != k,
    ensures
        lookup(upsert(s, k, v), other) == lookup(s, other),
{
    lemma_rank(s, k);
    lemma_rank(s, other);
    lemma_upsert_sorted(s, k, v);
    let t = upsert(s, k, v);
    let r = rank(s, k) as int;
    if has_key(s, other) {
        let j = rank(s, other) as int;
        let j2 = if has_key(s, k) || j < r {
            j
        } else {
            j + 1
        };
        assert(t[j2] == s[j]);
        lemma_lookup_at(t, other, j2);
    } else {
        lemma_rank_sorted(s, other);
        assert forall|j: int| 0 <= j < t.len() implies (#[trigger] t[j]).0 != other by {
            if t[j].0 == other {
                let i = if has_key(s, k) || j < r {
                    j
                } else {
                    j - 1
                };
                assert(t[j] == s[i]);
                assert(s[i].0 == other);
            }
        }
        lemma_lookup_absent(t, other);
    }
}

/// Binding a key twice is binding it to the later value.
pub proof fn lemma_upsert_upsert<T>(s: Seq<(Key, T)>, k: Key, v: T, w: T)
    requires
        keys_sorted(s),
    ensures
        upsert(upsert(s, k, v), k, w) == upsert(s, k, w),
{
    lemma_rank(s, k);
    lemma_upsert_sorted(s, k, v);
    lemma_lookup_at(upsert(s, k, v), k, rank(s, k) as int);
    assert(upsert(upsert(s, k, v), k, w) =~= upsert(s, k, w));
}

/// Binding a key to the value that it has changes nothing.
pub proof fn lemma_upsert_same<T>(s: Seq<(Key, T)>, k: Key, v: T)
    requires
        lookup(s, k) == Some(v),
    ensures
        upsert(s, k, v) == s,
{
    assert(upsert(s, k, v) =~= s);
}

/// Binding a new key and dropping it again changes nothing.
pub proof fn lemma_erase_upsert<T>(s: Seq<(Key, T)>, k: Key, v: T)
    requires
        keys_sorted(s),
        !has_key(s, k),
    ensures
        erase(upsert(s, k, v), k) == s,
{
    lemma_rank(s, k);
    lemma_upsert_sorted(s, k, v);
    lemma_lookup_at(upsert(s, k, v), k, rank(s, k) as int);
    assert(erase(upsert(s, k, v), k) =~= s);
}

/// Every entry of a sequence after a binding is the new one or was there
/// before.
pub proof fn lemma_upsert_members<T>(s: Seq<(Key, T)>, k: Key, v: T)
    ensures
        forall|i: int|
            0 <= i < upsert(s, k, v).len() ==> (#[trigger] upsert(s, k, v)[i]) == (k, v) || exists|
                j: int,
            |
                0 <= j < s.len() && s[j] == upsert(s, k, v)[i],
{
    lemma_rank(s, k);
    let t = upsert(s, k, v);
    let r = rank(s, k) as int;
    assert forall|i: int| 0 <= i < t.len() implies (#[trigger] t[i]) == (k, v) || exists|j: int|
        0 <= j < s.len() && s[j] == t[i] by {
        if has_key(s, k) {
            if i != r {
                assert(s[i] == t[i]);
            }
        } else {
            if i < r {
                assert(s[i] == t[i]);
            } else if i > r {
                assert(s[i - 1] == t[i]);
            }
        }
    }
}

/// Every entry of a sequence after a key was dropped was there before.
pub proof fn lemma_erase_members<T>(s: Seq<(Key, T)>, k: Key)
    ensures
        erase(s, k).len() <= s.len(),
        forall|i: int|
            0 <= i < erase(s, k).len() ==> exists|j: int|
                0 <= j < s.len() && s[j] == #[trigger] erase(s, k)[i],
{
    lemma_rank(s, k);
    let t = erase(s, k);
    let r = rank(s, k) as int;
    assert forall|i: int| 0 <= i < t.len() implies exists|j: int|
        0 <= j < s.len() && s[j] == #[trigger] t[i] by {
        if has_key(s, k) {
            if i < r {
                assert(s[i] == t[i]);
            } else {
                assert(s[i + 1] == t[i]);
            }
        } else {
            assert(s[i] == t[i]);
        }
    }
}

/// A key that is bound stays bound when another binding is made or
/// replaced.
pub proof fn lemma_upsert_keeps_keys<T>(s: Seq<(Key, T)>, k: Key, v: T, other: Key)
    requires
        keys_sorted(s),
        has_key(s, other),
    ensures
        has_key(upsert(s, k, v), other),
{
    if other == k {
        lemma_lookup_upsert_same(s, k, v);
    } else {
        lemma_lookup_upsert_other(s, k, v, other);
    }
}

/// The sequence with every value replaced by what `f` makes of its entry;
/// `None` where `f` fails on an entry.
pub open spec fn try_map_values<A, B>(s: Seq<(Key, A)>, f: spec_fn((Key, A)) -> Option<B>) -> Option<
    Seq<(Key, B)>,
>
    decreases s.len(),
{
    if s.len() == 0 {
        Some(Seq::empty())
    } else {
        match (try_map_values(s.drop_last(), f), f(s.last())) {
            (Some(done), Some(v)) => Some(done.push((s.last().0, v))),
            _ => None,
        }
    }
}

/// A mapping that failed on a prefix fails on the whole.
pub proof fn lemma_try_map_fails<A, B>(s: Seq<(Key, A)>, f: spec_fn((Key, A)) -> Option<B>, n: int)
    requires
        0 <= n <= s.len(),
        try_map_values(s.take(n), f) is None,
    ensures
        try_map_values(s, f) is None,
    decreases s.len() - n,
{
    if n < s.len() {
        assert(s.take(n + 1).drop_last() =~= s.take(n));
        lemma_try_map_fails(s, f, n + 1);
    } else {
        assert(s.take(n) =~= s);
    }
}

/// A mapping that succeeds keeps the keys and their order.
pub proof fn lemma_try_map_keys<A, B>(s: Seq<(Key, A)>, f: spec_fn((Key, A)) -> Option<B>)
    requires
        try_map_values(s, f) is Some,
    ensures
        try_map_values(s, f)->0.len() == s.len(),
        forall|i: int|
            0 <= i < s.len() ==> (#[trigger] try_map_values(s, f)->0[i]).0 == s[i].0 && f(s[i])
                == Some(try_map_values(s, f)->0[i].1),
    decreases s.len(),
{
    if s.len() > 0 {
        lemma_try_map_keys(s.drop_last(), f);
    }
}

/// A value that can be copied without changing what contracts see of it.
pub trait Duplicate: View + Sized {
    fn duplicate(&self) -> (r: Self)
        ensures
            r@ == self@,
    ;
}

#[derive(Debug, Clone, PartialEq, Eq)]
struct Entry<V> {
    key: String,
    value: V,
}

/// A map from identifiers to values, ordered by key.
#[derive(Debug, PartialEq, Eq)]
pub struct OrderedMap<V: View> {
    entries: Vec<Entry<V>>,
}

impl<V: View> View for OrderedMap<V> {
    type V = Seq<(Key, V::V)>;

    closed spec fn view(&self) -> Seq<(Key, V::V)> {
        Seq::new(self.entries.len() as nat, |i: int| (self.entries[i].key@, self.entries[i].value@))
    }
}

impl<V: View> OrderedMap<V> {
    #[verifier::type_invariant]
    spec fn inv(self) -> bool {
        keys_sorted(self@)
    }

    /// A map without bindings.
    pub fn new() -> (r: Self)
        ensures
            r@ == Seq::<(Key, V::V)>::empty(),
    {
        let r = OrderedMap { entries: Vec::new() };
        assert(r@ =~= Seq::<(Key, V::V)>::empty());
        r
    }

    /// The number of bindings. The keys of every map ascend strictly.
    pub fn len(&self) -> (n: usize)
        ensures
            n == self@.len(),
            keys_sorted(self@),
    {
        proof {
            use_type_invariant(self);
        }
        self.entries.len()
    }

    /// Whether the map has no binding.
    pub fn is_empty(&self) -> (r: bool)
        ensures
            r == (self@.len() == 0),
    {
        self.entries.len() == 0
    }

    /// The key of the `i`-th binding in ascending order.
    pub fn key_at(&self, i: usize) -> (k: &String)
        requires
            i < self@.len(),
        ensures
            k@ == self@[i as int].0,
    {
        &self.entries[i].key
    }

    /// The value of the `i`-th binding in ascending order.
    pub fn value_at(&self, i: usize) -> (v: &V)
        requires
            i < self@.len(),
        ensures
            v@ == self@[i as int].1,
    {
        &self.entries[i].value
    }

    /// The index at which `key` is found or belongs, by bisection.
    pub fn find(&self, key: &str) -> (r: usize)
        ensures
            r == rank(self@, key@),
            r <= self@.len(),
    {
        proof {
            use_type_invariant(self);
        }
        let n = self.entries.len();
        let mut lo: usize = 0;
        let mut hi: usize = n;
        while lo < hi
            invariant
                n == self@.len(),
                n == self.entries.len(),
                keys_sorted(self@),
                lo <= hi <= n,
                forall|j: int| 0 <= j < lo ==> text_lt(#[trigger] self@[j].0, key@),
                forall|j: int| hi <= j < n ==> !text_lt(#[trigger] self@[j].0, key@),
            decreases hi - lo,
        {
            let mid = lo + (hi - lo) / 2;
            if text_less(self.entries[mid].key.as_str(), key) {
                proof {
                    assert forall|j: int| 0 <= j < mid + 1 implies text_lt(
                        #[trigger] self@[j].0,
                        key@,
                    ) by {
                        if j < mid {
                            assert(text_lt(self@[j].0, self@[mid as int].0));
                            lemma_text_lt_transitive(self@[j].0, self@[mid as int].0, key@);
                        }
                    }
                }
                lo = mid + 1;
            } else {
                proof {
                    assert forall|j: int| mid <= j < n implies !text_lt(
                        #[trigger] self@[j].0,
                        key@,
                    ) by {
                        if j > mid && text_lt(self@[j].0, key@) {
                            assert(text_lt(self@[mid as int].0, self@[j].0));
                            lemma_text_lt_transitive(self@[mid as int].0, self@[j].0, key@);
                        }
                    }
                }
                hi = mid;
            }
        }
        proof {
            lemma_rank_is(self@, key@, lo as int);
        }
        lo
    }

    /// Whether the binding at index `i` exists and has the key `key`.
    fn holds_at(&self, i: usize, key: &str) -> (r: bool)
        requires
            i == rank(self@, key@),
        ensures
            r == has_key(self@, key@),
    {
        if i < self.entries.len() {
            let k = self.entries[i].key.as_str();
            proof {
                lemma_rank(self@, key@);
                lemma_text_lt_total(k@, key@);
                if text_lt(key@, k@) {
                    lemma_text_lt_asymmetric(key@, k@);
                }
            }
            !text_less(key, k)
        } else {
            false
        }
    }

    /// Whether `key` is bound.
    pub fn contains_key(&self, key: &str) -> (r: bool)
        ensures
            r == has_key(self@, key@),
    {
        let i = self.find(key);
        self.holds_at(i, key)
    }

    /// The value bound to `key`, if any.
    pub fn get(&self, key: &str) -> (r: Option<&V>)
        ensures
            match r {
                Some(v) => lookup(self@, key@) == Some(v@),
                None => lookup(self@, key@) is None,
            },
    {
        let i = self.find(key);
        if self.holds_at(i, key) {
            Some(&self.entries[i].value)
        } else {
            None
        }
    }

    /// Binds `key` to `value`, replacing an earlier binding.
    pub fn insert(&mut self, key: String, value: V)
        ensures
            final(self)@ == upsert(old(self)@, key@, value@),
    {
        proof {
            use_type_invariant(&*self);
            lemma_upsert_sorted(self@, key@, value@);
        }
        let i = self.find(key.as_str());
        let found = self.holds_at(i, key.as_str());
        let ghost before = self@;
        let mut entries: Vec<Entry<V>> = Vec::new();
        core::mem::swap(&mut entries, &mut self.entries);
        if found {
            entries.set(i, Entry { key, value });
        } else {
            entries.insert(i, Entry { key, value });
        }
        proof {
            let after = Seq::new(
                entries.len() as nat,
                |j: int| (entries[j].key@, entries[j].value@),
            );
            assert(after =~= upsert(before, key@, value@));
        }
        self.entries = entries;
    }

    /// Adds a binding whose key comes after every key of the map.
    pub fn push_back(&mut self, key: String, value: V)
        requires
            forall|j: int| 0 <= j < old(self)@.len() ==> text_lt(#[trigger] old(self)@[j].0, key@),
        ensures
            final(self)@ == old(self)@.push((key@, value@)),
    {
        proof {
            use_type_invariant(&*self);
        }
        let ghost before = self@;
        let mut entries: Vec<Entry<V>> = Vec::new();
        core::mem::swap(&mut entries, &mut self.entries);
        entries.push(Entry { key, value });
        proof {
            let after = Seq::new(
                entries.len() as nat,
                |j: int| (entries[j].key@, entries[j].value@),
            );
            assert(after =~= before.push((key@, value@)));
            assert forall|i: int, j: int| 0 <= i < j < after.len() implies text_lt(
                after[i].0,
                after[j].0,
            ) by {
                if j < before.len() {
                    assert(text_lt(before[i].0, before[j].0));
                } else {
                    assert(after[i] == before[i]);
                }
            }
        }
        self.entries = entries;
    }

    /// Drops the binding of `key` and returns its value, if there was one.
    pub fn remove(&mut self, key: &str) -> (r: Option<V>)
        ensures
            final(self)@ == erase(old(self)@, key@),
            match r {
                Some(v) => lookup(old(self)@, key@) == Some(v@),
                None => lookup(old(self)@, key@) is None,
            },
    {
        proof {
            use_type_invariant(&*self);
            lemma_erase_sorted(self@, key@);
        }
        let i = self.find(key);
        if self.holds_at(i, key) {
            let ghost before = self@;
            let mut entries: Vec<Entry<V>> = Vec::new();
            core::mem::swap(&mut entries, &mut self.entries);
            let e = entries.remove(i);
            proof {
                let after = Seq::new(
                    entries.len() as nat,
                    |j: int| (entries[j].key@, entries[j].value@),
                );
                assert(after =~= erase(before, key@));
            }
            self.entries = entries;
            Some(e.value)
        } else {
            None
        }
    }
}

impl<V: Duplicate> OrderedMap<V> {
    /// A copy with the same bindings.
    pub fn duplicate(&self) -> (r: Self)
        ensures
            r@ == self@,
    {
        proof {
            use_type_invariant(self);
        }
        let n = self.entries.len();
        let mut entries: Vec<Entry<V>> = Vec::new();
        let mut i: usize = 0;
        while i < n
            invariant
                n == self.entries.len(),
                i <= n,
                entries.len() == i,
                forall|j: int|
                    0 <= j < i ==> entries[j].key@ == self.entries[j].key@ && entries[j].value@
                        == self.entries[j].value@,
            decreases n - i,
        {
            let e = &self.entries[i];
            entries.push(Entry { key: e.key.clone(), value: e.value.duplicate() });
            i = i + 1;
        }
        proof {
            let after = Seq::new(
                entries.len() as nat,
                |j: int| (entries[j].key@, entries[j].value@),
            );
            assert(after =~= self@);
        }
        OrderedMap { entries }
    }
}

impl<V: Duplicate> Clone for OrderedMap<V> {
    fn clone(&self) -> (r: Self)
        ensures
            r@ == self@,
    {
        self.duplicate()
    }
}

} // verus!
