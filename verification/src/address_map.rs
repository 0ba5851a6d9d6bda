//! An address-keyed memoization map with insertion order kept: the
//! load walk inserts each record once under its source address, and the
//! save walk iterates the entries in that stable order.
use vstd::prelude::*;

verus! {

/// The value stored under `k`, scanning from the front.
pub open spec fn entries_get<V>(s: Seq<(usize, V)>, k: usize) -> Option<V>
    decreases s.len(),
{
    if s.len() == 0 {
        None
    } else if s[0].0 == k {
        Some(s[0].1)
    } else {
        entries_get(s.drop_first(), k)
    }
}

/// Whether `k` is among the keys.
pub open spec fn entries_contain<V>(s: Seq<(usize, V)>, k: usize) -> bool {
    entries_get(s, k) is Some
}

/// A map from source address to decoded record, backed by an entry
/// vector with unique keys.
pub struct AddressMap<V> {
    pub entries: Vec<(usize, V)>,
}

impl<V> AddressMap<V> {
    /// Keys are unique.
    pub open spec fn wf(self) -> bool {
        forall|i: int, j: int|
            0 <= i < j < self.entries@.len() ==> (#[trigger] self.entries@[i]).0 != (
            #[trigger] self.entries@[j]).0
    }

    pub open spec fn spec_get(self, k: usize) -> Option<V> {
        entries_get(self.entries@, k)
    }

    pub open spec fn contains(self, k: usize) -> bool {
        entries_contain(self.entries@, k)
    }

    pub fn new() -> (r: AddressMap<V>)
        ensures
            r.entries@.len() == 0,
            r.wf(),
    {
        AddressMap { entries: Vec::new() }
    }

    pub fn len(&self) -> (r: usize)
        ensures
            r == self.entries@.len(),
    {
        self.entries.len()
    }

    /// The entry at insertion position `i`.
    pub fn entry_at(&self, i: usize) -> (r: (usize, &V))
        requires
            i < self.entries@.len(),
        ensures
            r.0 == self.entries@[i as int].0,
            *r.1 == self.entries@[i as int].1,
    {
        let e = &self.entries[i];
        (e.0, &e.1)
    }

    pub fn get(&self, k: usize) -> (r: Option<&V>)
        ensures
            match r {
                Option::Some(v) => self.spec_get(k) == Some(*v),
                Option::None => self.spec_get(k) is None,
            },
    {
        let n = self.entries.len();
        let mut i: usize = 0;
        proof {
            assert(self.entries@.skip(0) =~= self.entries@);
        }
        while i < n
            invariant
                i <= n,
                n == self.entries@.len(),
                entries_get(self.entries@, k) == entries_get(self.entries@.skip(i as int), k),
                forall|j: int| 0 <= j < i ==> (#[trigger] self.entries@[j]).0 != k,
            decreases n - i,
        {
            if self.entries[i].0 == k {
                return Some(&self.entries[i].1);
            }
            proof {
                assert(self.entries@.skip(i as int).drop_first() =~= self.entries@.skip(
                    i as int + 1,
                ));
            }
            i += 1;
        }
        None
    }

    pub fn contains_key(&self, k: usize) -> (r: bool)
        ensures
            r == self.contains(k),
    {
        match self.get(k) {
            Option::Some(_) => true,
            Option::None => false,
        }
    }

    /// Insert under a key not present yet: the memoization sites check
    /// first and decode once per address.
    pub fn insert(&mut self, k: usize, v: V)
        requires
            !old(self).contains(k),
            old(self).wf(),
        ensures
            final(self).entries@ == old(self).entries@.push((k, v)),
            final(self).wf(),
            final(self).contains(k),
    {
        proof {
            lemma_entries_get_absent(self.entries@, k);
            lemma_entries_get_push(self.entries@, k, v);
        }
        self.entries.push((k, v));
    }
}

/// A key is found exactly when some entry carries it.
pub proof fn lemma_entries_contain_iff_index<V>(s: Seq<(usize, V)>, k: usize)
    ensures
        entries_contain(s, k) <==> exists|i: int| 0 <= i < s.len() && (#[trigger] s[i]).0 == k,
    decreases s.len(),
{
    if s.len() > 0 {
        lemma_entries_contain_iff_index(s.drop_first(), k);
        if s[0].0 == k {
            assert(0 <= 0 < s.len() && s[0].0 == k);
        } else {
            if entries_contain(s.drop_first(), k) {
                let d = s.drop_first();
                let i = choose|i: int| 0 <= i < d.len() && (#[trigger] d[i]).0 == k;
                assert(s[i + 1].0 == k);
            }
            if exists|i: int| 0 <= i < s.len() && (#[trigger] s[i]).0 == k {
                let i = choose|i: int| 0 <= i < s.len() && (#[trigger] s[i]).0 == k;
                assert(i > 0 && s.drop_first()[i - 1].0 == k);
            }
        }
    }
}

/// With unique keys, looking a key up finds exactly the entry that
/// carries it.
pub proof fn lemma_entries_get_at_index<V>(s: Seq<(usize, V)>, w: int)
    requires
        0 <= w < s.len(),
        forall|i: int, j: int|
            0 <= i < j < s.len() ==> (#[trigger] s[i]).0 != (#[trigger] s[j]).0,
    ensures
        entries_get(s, s[w].0) == Some(s[w].1),
    decreases w,
{
    if w == 0 {
    } else {
        assert(s[0].0 != s[w].0);
        let d = s.drop_first();
        assert forall|i: int, j: int|
            0 <= i < j < d.len() implies (#[trigger] d[i]).0 != (#[trigger] d[j]).0 by {
            assert(d[i] == s[i + 1] && d[j] == s[j + 1]);
        }
        assert(d[w - 1] == s[w]);
        lemma_entries_get_at_index(d, w - 1);
    }
}

/// A key that misses scans past every entry.
proof fn lemma_entries_get_absent<V>(s: Seq<(usize, V)>, k: usize)
    requires
        entries_get(s, k) is None,
    ensures
        forall|i: int| 0 <= i < s.len() ==> (#[trigger] s[i]).0 != k,
    decreases s.len(),
{
    if s.len() > 0 {
        lemma_entries_get_absent(s.drop_first(), k);
        assert forall|i: int| 0 <= i < s.len() implies (#[trigger] s[i]).0 != k by {
            if i > 0 {
                assert(s.drop_first()[i - 1] == s[i]);
            }
        }
    }
}

/// Appending an entry makes it findable under its key — unless the key
/// was already bound — and leaves every other key's binding as it was.
pub proof fn lemma_entries_get_push<V>(s: Seq<(usize, V)>, k: usize, v: V)
    ensures
        forall|q: usize|
            #[trigger] entries_get(s.push((k, v)), q) == (if entries_get(s, q) is Some {
                entries_get(s, q)
            } else if q == k {
                Some(v)
            } else {
                None
            }),
    decreases s.len(),
{
    if s.len() == 0 {
        assert forall|q: usize|
            #[trigger] entries_get(s.push((k, v)), q) == (if entries_get(s, q) is Some {
                entries_get(s, q)
            } else if q == k {
                Some(v)
            } else {
                None
            }) by {
            reveal_with_fuel(entries_get, 3);
            assert(s.push((k, v))[0] == (k, v));
            assert(s.push((k, v)).drop_first() =~= Seq::<(usize, V)>::empty());
        }
    } else {
        lemma_entries_get_push(s.drop_first(), k, v);
        assert forall|q: usize|
            #[trigger] entries_get(s.push((k, v)), q) == (if entries_get(s, q) is Some {
                entries_get(s, q)
            } else if q == k {
                Some(v)
            } else {
                None
            }) by {
            reveal_with_fuel(entries_get, 3);
            assert(s.push((k, v))[0] == s[0]);
            assert(s.push((k, v)).drop_first() =~= s.drop_first().push((k, v)));
            assert(entries_get(s.push((k, v)).drop_first(), q) == entries_get(
                s.drop_first().push((k, v)),
                q,
            ));
        }
    }
}

} // verus!
