use vstd::prelude::*;
use crate::resource::{Resource, ResourceView};

verus! {

/// Whether two byte vectors hold the same bytes.
pub fn bytes_eq(a: &Vec<u8>, b: &Vec<u8>) -> (r: bool)
    ensures
        r == (a@ == b@),
{
    if a.len() != b.len() {
        return false;
    }
    let mut i: usize = 0;
    while i < a.len()
        invariant
            i <= a@.len(),
            a@.len() == b@.len(),
            forall|k: int| 0 <= k < i ==> a@[k] == b@[k],
        decreases a@.len() - i,
    {
        if a[i] != b[i] {
            return false;
        }
        i = i + 1;
    }
    assert(a@ =~= b@);
    true
}

/// The keys and abstract records of the entries.
pub open spec fn entries_view(es: Seq<(Vec<u8>, Resource)>) -> Seq<(Seq<u8>, ResourceView)> {
    Seq::new(es.len(), |i: int| (es[i].0@, es[i].1@))
}

/// No key occurs twice.
pub open spec fn unique_keys(s: Seq<(Seq<u8>, ResourceView)>) -> bool {
    forall|i: int, j: int| 0 <= i < s.len() && 0 <= j < s.len() && i != j ==> s[i].0 != s[j].0
}

/// The keys of the entries, in order.
pub open spec fn entry_keys(s: Seq<(Seq<u8>, ResourceView)>) -> Seq<Seq<u8>> {
    Seq::new(s.len(), |i: int| s[i].0)
}

/// The map from each key to the record of its entry.
pub open spec fn entries_map(s: Seq<(Seq<u8>, ResourceView)>) -> Map<Seq<u8>, ResourceView> {
    Map::new(
        |k: Seq<u8>| exists|i: int| 0 <= i < s.len() && s[i].0 == k,
        |k: Seq<u8>| s[choose|i: int| 0 <= i < s.len() && s[i].0 == k].1,
    )
}

proof fn lemma_entry(s: Seq<(Seq<u8>, ResourceView)>, i: int)
    requires
        unique_keys(s),
        0 <= i < s.len(),
    ensures
        entries_map(s).contains_key(s[i].0),
        entries_map(s)[s[i].0] == s[i].1,
{
    let k = s[i].0;
    assert(exists|j: int| 0 <= j < s.len() && s[j].0 == k);
    let j = choose|j: int| 0 <= j < s.len() && s[j].0 == k;
    assert(j == i);
}

proof fn lemma_push(s0: Seq<(Seq<u8>, ResourceView)>, k: Seq<u8>, v: ResourceView)
    requires
        unique_keys(s0),
        !entries_map(s0).contains_key(k),
    ensures
        unique_keys(s0.push((k, v))),
        entries_map(s0.push((k, v))) == entries_map(s0).insert(k, v),
{
    let s = s0.push((k, v));
    assert forall|a: int| 0 <= a < s0.len() implies #[trigger] s0[a].0 != k by {
        if s0[a].0 == k {
            assert(entries_map(s0).contains_key(k));
        }
    }
    assert(unique_keys(s)) by {
        assert forall|a: int, b: int| 0 <= a < s.len() && 0 <= b < s.len() && a != b implies s[a].0 != s[b].0 by {
            if a < s0.len() {
                assert(s[a] == s0[a]);
            }
            if b < s0.len() {
                assert(s[b] == s0[b]);
            }
        }
    }
    let m = entries_map(s);
    let m0 = entries_map(s0).insert(k, v);
    assert forall|x: Seq<u8>| m.contains_key(x) <==> m0.contains_key(x) by {
        if m.contains_key(x) && x != k {
            let a = choose|a: int| 0 <= a < s.len() && s[a].0 == x;
            assert(a < s0.len());
            assert(s[a] == s0[a]);
            assert(entries_map(s0).contains_key(x));
        }
        if entries_map(s0).contains_key(x) {
            let a = choose|a: int| 0 <= a < s0.len() && s0[a].0 == x;
            assert(s[a] == s0[a]);
            assert(m.contains_key(x));
        }
        if x == k {
            assert(s[s0.len() as int].0 == k);
            assert(m.contains_key(x));
        }
    }
    assert forall|x: Seq<u8>| m.contains_key(x) implies m[x] == m0[x] by {
        let a = choose|a: int| 0 <= a < s.len() && s[a].0 == x;
        lemma_entry(s, a);
        if a < s0.len() {
            assert(s[a] == s0[a]);
            lemma_entry(s0, a);
        }
    }
    assert(m =~= m0);
}

proof fn lemma_remove(s0: Seq<(Seq<u8>, ResourceView)>, i: int)
    requires
        unique_keys(s0),
        0 <= i < s0.len(),
    ensures
        unique_keys(s0.remove(i)),
        entries_map(s0.remove(i)) == entries_map(s0).remove(s0[i].0),
{
    let s = s0.remove(i);
    let k = s0[i].0;
    assert forall|a: int| 0 <= a < s.len() implies #[trigger] s[a] == s0[if a < i { a } else { a + 1 }] by {}
    assert(unique_keys(s)) by {
        assert forall|a: int, b: int| 0 <= a < s.len() && 0 <= b < s.len() && a != b implies s[a].0 != s[b].0 by {
            assert(s[a] == s0[if a < i { a } else { a + 1 }]);
            assert(s[b] == s0[if b < i { b } else { b + 1 }]);
        }
    }
    let m = entries_map(s);
    let m0 = entries_map(s0).remove(k);
    assert forall|x: Seq<u8>| m.contains_key(x) <==> m0.contains_key(x) by {
        if m.contains_key(x) {
            let a = choose|a: int| 0 <= a < s.len() && s[a].0 == x;
            let a0 = if a < i { a } else { a + 1 };
            assert(s[a] == s0[a0]);
            assert(a0 != i);
            assert(entries_map(s0).contains_key(x));
            assert(x != k);
        }
        if m0.contains_key(x) {
            assert(entries_map(s0).contains_key(x));
            let a0 = choose|a: int| 0 <= a < s0.len() && s0[a].0 == x;
            assert(a0 != i);
            let a = if a0 < i { a0 } else { a0 - 1 };
            assert(s[a] == s0[a0]);
            assert(m.contains_key(x));
        }
    }
    assert forall|x: Seq<u8>| m.contains_key(x) implies m[x] == m0[x] by {
        let a = choose|a: int| 0 <= a < s.len() && s[a].0 == x;
        lemma_entry(s, a);
        let a0 = if a < i { a } else { a + 1 };
        assert(s[a] == s0[a0]);
        lemma_entry(s0, a0);
    }
    assert(m =~= m0);
}

proof fn lemma_map_size(s: Seq<(Seq<u8>, ResourceView)>)
    requires
        unique_keys(s),
    ensures
        entries_map(s).dom().len() == s.len(),
        entries_map(s).dom().finite(),
{
    let ks = entry_keys(s);
    assert(ks.no_duplicates());
    ks.unique_seq_to_set();
    assert(entries_map(s).dom() =~= ks.to_set()) by {
        assert forall|k: Seq<u8>| entries_map(s).dom().contains(k) implies ks.to_set().contains(k) by {
            let i = choose|i: int| 0 <= i < s.len() && s[i].0 == k;
            assert(ks[i] == k);
        }
        assert forall|k: Seq<u8>| ks.to_set().contains(k) implies entries_map(s).dom().contains(k) by {
            let i = choose|i: int| 0 <= i < ks.len() && ks[i] == k;
            assert(s[i].0 == k);
        }
    }
}

/// A cache of records, each stored under the bytes of a name.
pub struct Cache {
    entries: Vec<(Vec<u8>, Resource)>,
}

impl View for Cache {
    type V = Map<Seq<u8>, ResourceView>;

    closed spec fn view(&self) -> Map<Seq<u8>, ResourceView> {
        entries_map(entries_view(self.entries@))
    }
}

impl Cache {
    /// The cache holds each key once.
    pub closed spec fn wf(&self) -> bool {
        unique_keys(entries_view(self.entries@))
    }

    /// The keys of a well-formed cache are finitely many.
    pub proof fn lemma_finite(&self)
        requires
            self.wf(),
        ensures
            self@.dom().finite(),
    {
        lemma_map_size(entries_view(self.entries@));
    }

    /// An empty cache.
    pub fn new() -> (c: Cache)
        ensures
            c.wf(),
            c@ == Map::<Seq<u8>, ResourceView>::empty(),
    {
        let c = Cache { entries: Vec::new() };
        assert(c@ =~= Map::<Seq<u8>, ResourceView>::empty());
        c
    }

    /// The number of keys held.
    pub fn len(&self) -> (n: usize)
        requires
            self.wf(),
        ensures
            n == self@.dom().len(),
            self@.dom().finite(),
    {
        proof {
            lemma_map_size(entries_view(self.entries@));
        }
        self.entries.len()
    }

    /// The position of the entry stored under `k`.
    fn find(&self, k: &Vec<u8>) -> (r: Option<usize>)
        requires
            self.wf(),
        ensures
            r matches Some(i) ==> i < self.entries@.len() && self.entries@[i as int].0@ == k@,
            r is None ==> !self@.contains_key(k@),
    {
        let mut i: usize = 0;
        while i < self.entries.len()
            invariant
                i <= self.entries@.len(),
                forall|j: int| 0 <= j < i ==> #[trigger] self.entries@[j].0@ != k@,
            decreases self.entries@.len() - i,
        {
            if bytes_eq(&self.entries[i].0, k) {
                return Some(i);
            }
            i = i + 1;
        }
        proof {
            if self@.contains_key(k@) {
                let s = entries_view(self.entries@);
                let j = choose|j: int| 0 <= j < s.len() && s[j].0 == k@;
                assert(self.entries@[j].0@ == k@);
            }
        }
        None
    }

    /// Whether a record is stored under `k`.
    pub fn contains_key(&self, k: &Vec<u8>) -> (r: bool)
        requires
            self.wf(),
        ensures
            r == self@.contains_key(k@),
    {
        match self.find(k) {
            Some(i) => {
                proof {
                    lemma_entry(entries_view(self.entries@), i as int);
                }
                true
            },
            None => false,
        }
    }

    /// A copy of the record stored under `k`.
    pub fn get(&self, k: &Vec<u8>) -> (r: Resource)
        requires
            self.wf(),
            self@.contains_key(k@),
        ensures
            r@ == self@[k@],
    {
        match self.find(k) {
            Some(i) => {
                proof {
                    lemma_entry(entries_view(self.entries@), i as int);
                }
                self.entries[i].1.deep_copy()
            },
            None => {
                assert(false);
                Resource::new()
            },
        }
    }

    /// Stores `r` under `k`, in place of any record stored there.
    pub fn insert(&mut self, k: Vec<u8>, r: Resource)
        requires
            old(self).wf(),
        ensures
            final(self).wf(),
            final(self)@ == old(self)@.insert(k@, r@),
    {
        let ghost kv = k@;
        let ghost rv = r@;
        let ghost s0 = entries_view(self.entries@);
        match self.find(&k) {
            Some(i) => {
                let _ = self.entries.remove(i);
                proof {
                    lemma_remove(s0, i as int);
                    assert(entries_view(self.entries@) =~= s0.remove(i as int));
                }
            },
            None => {
                assert(entries_view(self.entries@) == s0);
            },
        }
        let ghost s1 = entries_view(self.entries@);
        assert(!entries_map(s1).contains_key(kv));
        self.entries.push((k, r));
        proof {
            lemma_push(s1, kv, rv);
            assert(entries_view(self.entries@) =~= s1.push((kv, rv)));
            assert(entries_map(s1).insert(kv, rv) =~= entries_map(s0).insert(kv, rv));
        }
    }

    /// Removes the record stored under `k`, if any.
    pub fn remove(&mut self, k: &Vec<u8>)
        requires
            old(self).wf(),
        ensures
            final(self).wf(),
            final(self)@ == old(self)@.remove(k@),
    {
        let ghost s0 = entries_view(self.entries@);
        match self.find(k) {
            Some(i) => {
                let _ = self.entries.remove(i);
                proof {
                    lemma_remove(s0, i as int);
                    assert(entries_view(self.entries@) =~= s0.remove(i as int));
                }
            },
            None => {
                assert(self@ =~= old(self)@.remove(k@));
            },
        }
    }

    /// A copy holding the same records.
    pub fn deep_copy(&self) -> (r: Cache)
        requires
            self.wf(),
        ensures
            r.wf(),
            r@ == self@,
    {
        let mut entries: Vec<(Vec<u8>, Resource)> = Vec::new();
        let mut i: usize = 0;
        while i < self.entries.len()
            invariant
                i <= self.entries@.len(),
                entries@.len() == i,
                entries_view(entries@) == entries_view(self.entries@).take(i as int),
            decreases self.entries@.len() - i,
        {
            let k = crate::message::copy_bytes(&self.entries[i].0);
            let v = self.entries[i].1.deep_copy();
            let ghost pair = (k@, v@);
            let ghost before = entries@;
            entries.push((k, v));
            assert(entries_view(entries@)[i as int] == pair);
            i = i + 1;
            assert(entries_view(entries@) =~= entries_view(self.entries@).take(i as int));
        }
        assert(entries_view(self.entries@).take(i as int) =~= entries_view(self.entries@));
        Cache { entries }
    }
}

} // verus!
