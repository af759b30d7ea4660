//! An association store keyed by `u32`, with one entry per key.
//!
//! The engine owns several logical maps (attestation records, pending
//! candidates, pending commitments, shard heads, scheduled upgrades).  All
//! of them are instances of this store: a vector of key/value pairs kept in
//! insertion order, with every key occurring at most once.  The view of a
//! store is the sequence of key/value-view pairs, and the spec functions
//! below give it the usual map reading.

use vstd::prelude::*;

verus! {

/// Every key occurs at most once.
pub open spec fn distinct_keys<T>(s: Seq<(u32, T)>) -> bool {
    forall|i: int, j: int| 0 <= i < j < s.len() ==> s[i].0 != s[j].0
}

/// Whether some entry of `s` carries the key `k`.
pub open spec fn spec_contains<T>(s: Seq<(u32, T)>, k: u32) -> bool {
    exists|i: int| 0 <= i < s.len() && s[i].0 == k
}

/// The value held under `k`: the first entry with that key, if any.
pub open spec fn spec_get<T>(s: Seq<(u32, T)>, k: u32) -> Option<T>
    decreases s.len(),
{
    if s.len() == 0 {
        None
    } else if s[0].0 == k {
        Some(s[0].1)
    } else {
        spec_get(s.drop_first(), k)
    }
}

/// `s` with `v` bound to `k`: an existing entry keeps its position, a new
/// key is appended at the end.
pub open spec fn spec_insert<T>(s: Seq<(u32, T)>, k: u32, v: T) -> Seq<(u32, T)>
    decreases s.len(),
{
    if s.len() == 0 {
        seq![(k, v)]
    } else if s[0].0 == k {
        seq![(k, v)] + s.drop_first()
    } else {
        seq![s[0]] + spec_insert(s.drop_first(), k, v)
    }
}

/// `s` with the first entry keyed `k` taken out.
pub open spec fn spec_remove<T>(s: Seq<(u32, T)>, k: u32) -> Seq<(u32, T)>
    decreases s.len(),
{
    if s.len() == 0 {
        s
    } else if s[0].0 == k {
        s.drop_first()
    } else {
        seq![s[0]] + spec_remove(s.drop_first(), k)
    }
}

/// With distinct keys, `spec_get` answers exactly for the entry that holds
/// the key.
pub proof fn lemma_get_characterizes<T>(s: Seq<(u32, T)>, k: u32)
    requires
        distinct_keys(s),
    ensures
        spec_get(s, k) is Some <==> spec_contains(s, k),
        forall|i: int| 0 <= i < s.len() && s[i].0 == k ==> spec_get(s, k) == Some(s[i].1),
    decreases s.len(),
{
    if s.len() > 0 {
        assert(distinct_keys(s.drop_first())) by {
            assert forall|i: int, j: int|
                0 <= i < j < s.drop_first().len() implies s.drop_first()[i].0
                != s.drop_first()[j].0 by {
                assert(s.drop_first()[i] == s[i + 1]);
                assert(s.drop_first()[j] == s[j + 1]);
            }
        }
        lemma_get_characterizes(s.drop_first(), k);
        if s[0].0 != k {
            assert(spec_contains(s, k) ==> spec_contains(s.drop_first(), k)) by {
                if spec_contains(s, k) {
                    let i = choose|i: int| 0 <= i < s.len() && s[i].0 == k;
                    assert(s.drop_first()[i - 1] == s[i]);
                }
            }
            assert forall|i: int| 0 <= i < s.len() && s[i].0 == k implies spec_get(s, k)
                == Some(s[i].1) by {
                assert(s.drop_first()[i - 1] == s[i]);
            }
        }
    }
}

/// Inserting under a key that sits at position `i` rewrites that position.
pub proof fn lemma_insert_existing<T>(s: Seq<(u32, T)>, k: u32, v: T, i: int)
    requires
        distinct_keys(s),
        0 <= i < s.len(),
        s[i].0 == k,
    ensures
        spec_insert(s, k, v) =~= s.update(i, (k, v)),
    decreases s.len(),
{
    if i == 0 {
        assert(spec_insert(s, k, v) =~= s.update(0, (k, v)));
    } else {
        assert(distinct_keys(s.drop_first())) by {
            assert forall|p: int, q: int|
                0 <= p < q < s.drop_first().len() implies s.drop_first()[p].0
                != s.drop_first()[q].0 by {
                assert(s.drop_first()[p] == s[p + 1]);
                assert(s.drop_first()[q] == s[q + 1]);
            }
        }
        assert(s.drop_first()[i - 1] == s[i]);
        lemma_insert_existing(s.drop_first(), k, v, i - 1);
        assert(spec_insert(s, k, v) =~= s.update(i, (k, v)));
    }
}

/// Inserting a fresh key appends the entry.
pub proof fn lemma_insert_new<T>(s: Seq<(u32, T)>, k: u32, v: T)
    requires
        !spec_contains(s, k),
    ensures
        spec_insert(s, k, v) =~= s.push((k, v)),
    decreases s.len(),
{
    if s.len() > 0 {
        assert(s[0].0 != k);
        assert(!spec_contains(s.drop_first(), k)) by {
            if spec_contains(s.drop_first(), k) {
                let i = choose|i: int|
                    0 <= i < s.drop_first().len() && s.drop_first()[i].0 == k;
                assert(s[i + 1].0 == k);
            }
        }
        lemma_insert_new(s.drop_first(), k, v);
        assert(spec_insert(s, k, v) =~= s.push((k, v)));
    }
}

/// After an insert the store answers `v` for `k` and is otherwise unchanged.
pub proof fn lemma_insert_get<T>(s: Seq<(u32, T)>, k: u32, v: T)
    requires
        distinct_keys(s),
    ensures
        distinct_keys(spec_insert(s, k, v)),
        spec_get(spec_insert(s, k, v), k) == Some(v),
        forall|k2: u32| k2 != k ==> spec_get(spec_insert(s, k, v), k2) == spec_get(s, k2),
        forall|k2: u32|
            spec_contains(spec_insert(s, k, v), k2) <==> (k2 == k || spec_contains(s, k2)),
        spec_insert(s, k, v).len() == s.len() + (if spec_contains(s, k) {
            0int
        } else {
            1int
        }),
{
    lemma_get_characterizes(s, k);
    if spec_contains(s, k) {
        let i = choose|i: int| 0 <= i < s.len() && s[i].0 == k;
        lemma_insert_existing(s, k, v, i);
        let t = s.update(i, (k, v));
        assert(forall|p: int| 0 <= p < t.len() ==> t[p].0 == s[p].0);
        assert(distinct_keys(t));
        lemma_get_characterizes(t, k);
        assert(t[i].0 == k && t[i].1 == v);
        assert(spec_get(t, k) == Some(v));
        assert forall|k2: u32| k2 != k implies spec_get(t, k2) == spec_get(s, k2) by {
            lemma_get_characterizes(t, k2);
            lemma_get_characterizes(s, k2);
            if spec_contains(s, k2) {
                let j = choose|j: int| 0 <= j < s.len() && s[j].0 == k2;
                assert(j != i);
                assert(t[j] == s[j]);
            } else {
                if spec_contains(t, k2) {
                    let j = choose|j: int| 0 <= j < t.len() && t[j].0 == k2;
                    assert(s[j].0 == k2);
                }
            }
        }
        assert forall|k2: u32|
            spec_contains(t, k2) <==> (k2 == k || spec_contains(s, k2)) by {
            if spec_contains(t, k2) {
                let j = choose|j: int| 0 <= j < t.len() && t[j].0 == k2;
                assert(s[j].0 == k2 || k2 == k);
            }
            if k2 == k {
                assert(t[i].0 == k);
            }
            if spec_contains(s, k2) && k2 != k {
                let j = choose|j: int| 0 <= j < s.len() && s[j].0 == k2;
                assert(t[j].0 == k2);
            }
        }
    } else {
        lemma_insert_new(s, k, v);
        let t = s.push((k, v));
        assert(t[s.len() as int] == (k, v));
        assert(forall|p: int| 0 <= p < s.len() ==> t[p] == s[p]);
        assert forall|p: int, q: int| 0 <= p < q < t.len() implies t[p].0 != t[q].0 by {
            if q == s.len() {
                assert(t[p] == s[p]);
                assert(s[p].0 != k);
            }
        }
        lemma_get_characterizes(t, k);
        assert(spec_get(t, k) == Some(v));
        assert forall|k2: u32| k2 != k implies spec_get(t, k2) == spec_get(s, k2) by {
            lemma_get_characterizes(t, k2);
            lemma_get_characterizes(s, k2);
            if spec_contains(s, k2) {
                let j = choose|j: int| 0 <= j < s.len() && s[j].0 == k2;
                assert(t[j] == s[j]);
            } else {
                if spec_contains(t, k2) {
                    let j = choose|j: int| 0 <= j < t.len() && t[j].0 == k2;
                    assert(j < s.len() ==> s[j].0 == k2);
                    assert(j == s.len() ==> t[j].0 == k);
                }
            }
        }
        assert forall|k2: u32|
            spec_contains(t, k2) <==> (k2 == k || spec_contains(s, k2)) by {
            if spec_contains(t, k2) {
                let j = choose|j: int| 0 <= j < t.len() && t[j].0 == k2;
                assert(j < s.len() ==> s[j].0 == k2);
                assert(j == s.len() ==> k2 == k);
            }
            if k2 == k {
                assert(t[s.len() as int].0 == k);
            }
            if spec_contains(s, k2) {
                let j = choose|j: int| 0 <= j < s.len() && s[j].0 == k2;
                assert(t[j].0 == k2);
            }
        }
    }
}

/// Removing an absent key changes nothing.
pub proof fn lemma_remove_absent<T>(s: Seq<(u32, T)>, k: u32)
    requires
        !spec_contains(s, k),
    ensures
        spec_remove(s, k) =~= s,
    decreases s.len(),
{
    if s.len() > 0 {
        assert(s[0].0 != k);
        assert(!spec_contains(s.drop_first(), k)) by {
            if spec_contains(s.drop_first(), k) {
                let i = choose|i: int|
                    0 <= i < s.drop_first().len() && s.drop_first()[i].0 == k;
                assert(s[i + 1].0 == k);
            }
        }
        lemma_remove_absent(s.drop_first(), k);
        assert(spec_remove(s, k) =~= s);
    }
}

/// Removing the key found at position `i` deletes exactly that position.
pub proof fn lemma_remove_at<T>(s: Seq<(u32, T)>, k: u32, i: int)
    requires
        distinct_keys(s),
        0 <= i < s.len(),
        s[i].0 == k,
    ensures
        spec_remove(s, k) =~= s.remove(i),
    decreases s.len(),
{
    if i == 0 {
        assert(spec_remove(s, k) =~= s.remove(0));
    } else {
        assert(distinct_keys(s.drop_first())) by {
            assert forall|p: int, q: int|
                0 <= p < q < s.drop_first().len() implies s.drop_first()[p].0
                != s.drop_first()[q].0 by {
                assert(s.drop_first()[p] == s[p + 1]);
                assert(s.drop_first()[q] == s[q + 1]);
            }
        }
        assert(s.drop_first()[i - 1] == s[i]);
        lemma_remove_at(s.drop_first(), k, i - 1);
        assert(spec_remove(s, k) =~= s.remove(i));
    }
}

/// After a removal the store answers `None` for `k` and is otherwise
/// unchanged.
pub proof fn lemma_remove_get<T>(s: Seq<(u32, T)>, k: u32)
    requires
        distinct_keys(s),
    ensures
        distinct_keys(spec_remove(s, k)),
        spec_get(spec_remove(s, k), k) is None,
        forall|k2: u32| k2 != k ==> spec_get(spec_remove(s, k), k2) == spec_get(s, k2),
        forall|k2: u32|
            spec_contains(spec_remove(s, k), k2) <==> (k2 != k && spec_contains(s, k2)),
        spec_remove(s, k).len() == s.len() - (if spec_contains(s, k) {
            1int
        } else {
            0int
        }),
{
    lemma_get_characterizes(s, k);
    if spec_contains(s, k) {
        let i = choose|i: int| 0 <= i < s.len() && s[i].0 == k;
        lemma_remove_at(s, k, i);
        let t = s.remove(i);
        assert forall|p: int, q: int| 0 <= p < q < t.len() implies t[p].0 != t[q].0 by {
            let p0 = if p < i { p } else { p + 1 };
            let q0 = if q < i { q } else { q + 1 };
            assert(t[p] == s[p0]);
            assert(t[q] == s[q0]);
        }
        lemma_get_characterizes(t, k);
        assert(!spec_contains(t, k)) by {
            if spec_contains(t, k) {
                let j = choose|j: int| 0 <= j < t.len() && t[j].0 == k;
                let j0 = if j < i { j } else { j + 1 };
                assert(t[j] == s[j0]);
            }
        }
        assert forall|k2: u32| k2 != k implies spec_get(t, k2) == spec_get(s, k2) by {
            lemma_get_characterizes(t, k2);
            lemma_get_characterizes(s, k2);
            if spec_contains(s, k2) {
                let j = choose|j: int| 0 <= j < s.len() && s[j].0 == k2;
                let jt = if j < i { j } else { j - 1 };
                assert(t[jt] == s[j]);
            } else {
                if spec_contains(t, k2) {
                    let j = choose|j: int| 0 <= j < t.len() && t[j].0 == k2;
                    let j0 = if j < i { j } else { j + 1 };
                    assert(t[j] == s[j0]);
                }
            }
        }
        assert forall|k2: u32|
            spec_contains(t, k2) <==> (k2 != k && spec_contains(s, k2)) by {
            if spec_contains(t, k2) {
                let j = choose|j: int| 0 <= j < t.len() && t[j].0 == k2;
                let j0 = if j < i { j } else { j + 1 };
                assert(t[j] == s[j0]);
            }
            if k2 != k && spec_contains(s, k2) {
                let j = choose|j: int| 0 <= j < s.len() && s[j].0 == k2;
                let jt = if j < i { j } else { j - 1 };
                assert(t[jt] == s[j]);
            }
        }
    } else {
        lemma_remove_absent(s, k);
    }
}

/// The engine's association store: insertion-ordered key/value pairs with
/// distinct keys.
pub struct Store<V> {
    entries: Vec<(u32, V)>,
}

impl<V: View> View for Store<V> {
    type V = Seq<(u32, <V as View>::V)>;

    closed spec fn view(&self) -> Seq<(u32, <V as View>::V)> {
        self.entries@.map(|i: int, e: (u32, V)| (e.0, e.1@))
    }
}

impl<V: View> Store<V> {
    /// Distinct keys: the store reads as a map.
    pub open spec fn wf(self) -> bool {
        distinct_keys(self@)
    }

    pub fn new() -> (r: Self)
        ensures
            r@ == Seq::<(u32, <V as View>::V)>::empty(),
            r.wf(),
    {
        let r = Store { entries: Vec::new() };
        proof {
            assert(r@ =~= Seq::<(u32, <V as View>::V)>::empty());
        }
        r
    }

    pub fn len(&self) -> (n: usize)
        ensures
            n == self@.len(),
    {
        self.entries.len()
    }

    /// The key of the entry at position `i`.
    pub fn key_at(&self, i: usize) -> (k: u32)
        requires
            i < self@.len(),
        ensures
            k == self@[i as int].0,
    {
        self.entries[i].0
    }

    /// The value of the entry at position `i`.
    pub fn value_at(&self, i: usize) -> (v: &V)
        requires
            i < self@.len(),
        ensures
            v@ == self@[i as int].1,
    {
        &self.entries[i].1
    }

    pub fn contains_key(&self, k: u32) -> (r: bool)
        ensures
            r == spec_contains(self@, k),
    {
        let n: usize = self.entries.len();
        let mut i: usize = 0;
        while i < n
            invariant
                n == self@.len(),
                i <= n,
                forall|j: int| 0 <= j < i ==> self@[j].0 != k,
            decreases n - i,
        {
            if self.entries[i].0 == k {
                proof {
                    assert(self@[i as int].0 == k);
                }
                return true;
            }
            i += 1;
        }
        false
    }

    pub fn get(&self, k: u32) -> (r: Option<&V>)
        requires
            self.wf(),
        ensures
            match r {
                Some(v) => spec_get(self@, k) == Some(v@),
                None => spec_get(self@, k) is None,
            },
    {
        proof {
            lemma_get_characterizes(self@, k);
        }
        let n: usize = self.entries.len();
        let mut i: usize = 0;
        while i < n
            invariant
                n == self@.len(),
                i <= n,
                self.wf(),
                forall|j: int| 0 <= j < i ==> self@[j].0 != k,
            decreases n - i,
        {
            if self.entries[i].0 == k {
                proof {
                    assert(self@[i as int].0 == k);
                    lemma_get_characterizes(self@, k);
                    assert(spec_get(self@, k) == Some(self@[i as int].1));
                }
                return Some(&self.entries[i].1);
            }
            i += 1;
        }
        proof {
            if spec_contains(self@, k) {
                let j = choose|j: int| 0 <= j < self@.len() && self@[j].0 == k;
                assert(false);
            }
        }
        None
    }

    /// Binds `v` to `k`; an existing entry keeps its place, a new key is
    /// appended.
    pub fn insert(&mut self, k: u32, v: V)
        requires
            old(self).wf(),
        ensures
            final(self)@ == spec_insert(old(self)@, k, v@),
            final(self).wf(),
    {
        proof {
            lemma_insert_get(old(self)@, k, v@);
        }
        let n: usize = self.entries.len();
        let mut i: usize = 0;
        while i < n
            invariant
                n == self@.len(),
                i <= n,
                self.wf(),
                self@ == old(self)@,
                forall|j: int| 0 <= j < i ==> self@[j].0 != k,
            decreases n - i,
        {
            if self.entries[i].0 == k {
                proof {
                    lemma_insert_get(old(self)@, k, v@);
                    lemma_insert_existing(old(self)@, k, v@, i as int);
                }
                self.entries.set(i, (k, v));
                proof {
                    assert(self@ =~= spec_insert(old(self)@, k, v@));
                }
                return ;
            }
            i += 1;
        }
        proof {
            if spec_contains(old(self)@, k) {
                let j = choose|j: int| 0 <= j < old(self)@.len() && old(self)@[j].0 == k;
                assert(false);
            }
            lemma_insert_get(old(self)@, k, v@);
            lemma_insert_new(old(self)@, k, v@);
        }
        self.entries.push((k, v));
        proof {
            assert(self@ =~= spec_insert(old(self)@, k, v@));
        }
    }

    /// Takes the entry keyed `k` out of the store, if present.
    pub fn remove(&mut self, k: u32) -> (r: Option<V>)
        requires
            old(self).wf(),
        ensures
            final(self)@ == spec_remove(old(self)@, k),
            final(self).wf(),
            match r {
                Some(v) => spec_get(old(self)@, k) == Some(v@),
                None => !spec_contains(old(self)@, k),
            },
    {
        proof {
            lemma_remove_get(old(self)@, k);
            lemma_get_characterizes(old(self)@, k);
        }
        let n: usize = self.entries.len();
        let mut i: usize = 0;
        while i < n
            invariant
                n == self@.len(),
                i <= n,
                self.wf(),
                self@ == old(self)@,
                forall|j: int| 0 <= j < i ==> self@[j].0 != k,
            decreases n - i,
        {
            if self.entries[i].0 == k {
                proof {
                    assert(old(self)@[i as int].0 == k);
                    lemma_remove_get(old(self)@, k);
                    lemma_get_characterizes(old(self)@, k);
                    lemma_remove_at(old(self)@, k, i as int);
                    assert(spec_get(old(self)@, k) == Some(old(self)@[i as int].1));
                }
                let (_, v) = self.entries.remove(i);
                proof {
                    assert(self@ =~= spec_remove(old(self)@, k));
                }
                return Some(v);
            }
            i += 1;
        }
        proof {
            if spec_contains(old(self)@, k) {
                let j = choose|j: int| 0 <= j < old(self)@.len() && old(self)@[j].0 == k;
                assert(false);
            }
            lemma_remove_get(old(self)@, k);
            lemma_remove_absent(old(self)@, k);
            assert(self@ =~= spec_remove(old(self)@, k));
        }
        None
    }

    /// Drains the store: afterwards nothing is held.
    pub fn clear(&mut self)
        ensures
            final(self)@ == Seq::<(u32, <V as View>::V)>::empty(),
            final(self).wf(),
    {
        self.entries.clear();
        proof {
            assert(self@ =~= Seq::<(u32, <V as View>::V)>::empty());
        }
    }
}

} // verus!
