//! An in-memory table from byte strings to byte strings, with unique keys.
//! It holds each of the store's tables, and the item set of one task.
use vstd::prelude::*;

verus! {

/// A pair of byte strings, as values.
pub type Pair = (Seq<u8>, Seq<u8>);

/// The map that a sequence of pairs stands for; a later pair wins over an
/// earlier one with the same key.
pub open spec fn pairs_map(s: Seq<Pair>) -> Map<Seq<u8>, Seq<u8>>
    decreases s.len(),
{
    if s.len() == 0 {
        Map::empty()
    } else {
        pairs_map(s.drop_last()).insert(s.last().0, s.last().1)
    }
}

/// No two pairs share a key.
pub open spec fn unique_keys(s: Seq<Pair>) -> bool {
    forall|i: int, j: int| 0 <= i < s.len() && 0 <= j < s.len() && i != j ==> s[i].0 != s[j].0
}

/// The values of a vector of pairs of byte vectors.
pub open spec fn pairs_view(v: Seq<(Vec<u8>, Vec<u8>)>) -> Seq<Pair> {
    v.map_values(|p: (Vec<u8>, Vec<u8>)| (p.0@, p.1@))
}

pub proof fn lemma_pairs_map_index(s: Seq<Pair>, i: int)
    requires
        unique_keys(s),
        0 <= i < s.len(),
    ensures
        pairs_map(s).contains_key(s[i].0),
        pairs_map(s)[s[i].0] == s[i].1,
    decreases s.len(),
{
    if i < s.len() - 1 {
        let t = s.drop_last();
        assert(unique_keys(t)) by {
            assert forall|a: int, b: int| 0 <= a < t.len() && 0 <= b < t.len() && a != b implies t[a].0
                != t[b].0 by {
                assert(t[a] == s[a] && t[b] == s[b]);
            }
        }
        assert(s[i] == t[i]);
        lemma_pairs_map_index(t, i);
        assert(s[s.len() - 1].0 != s[i].0);
    }
}

pub proof fn lemma_pairs_map_absent(s: Seq<Pair>, k: Seq<u8>)
    requires
        forall|i: int| 0 <= i < s.len() ==> s[i].0 != k,
    ensures
        !pairs_map(s).contains_key(k),
    decreases s.len(),
{
    if s.len() > 0 {
        let t = s.drop_last();
        assert forall|i: int| 0 <= i < t.len() implies t[i].0 != k by {
            assert(t[i] == s[i]);
        }
        lemma_pairs_map_absent(t, k);
        assert(s[s.len() - 1].0 != k);
    }
}

pub proof fn lemma_pairs_map_update(s: Seq<Pair>, i: int, v: Seq<u8>)
    requires
        unique_keys(s),
        0 <= i < s.len(),
    ensures
        pairs_map(s.update(i, (s[i].0, v))) =~= pairs_map(s).insert(s[i].0, v),
        unique_keys(s.update(i, (s[i].0, v))),
    decreases s.len(),
{
    let u = s.update(i, (s[i].0, v));
    let t = s.drop_last();
    assert(unique_keys(t)) by {
        assert forall|a: int, b: int| 0 <= a < t.len() && 0 <= b < t.len() && a != b implies t[a].0
            != t[b].0 by {
            assert(t[a] == s[a] && t[b] == s[b]);
        }
    }
    assert(unique_keys(u)) by {
        assert forall|a: int, b: int| 0 <= a < u.len() && 0 <= b < u.len() && a != b implies u[a].0
            != u[b].0 by {
            assert(s[a].0 != s[b].0);
        }
    }
    if i == s.len() - 1 {
        assert(u.drop_last() =~= t);
    } else {
        assert(u.drop_last() =~= t.update(i, (t[i].0, v)));
        lemma_pairs_map_update(t, i, v);
        assert(s[s.len() - 1].0 != s[i].0);
    }
}

pub proof fn lemma_pairs_map_remove(s: Seq<Pair>, i: int)
    requires
        unique_keys(s),
        0 <= i < s.len(),
    ensures
        pairs_map(s.remove(i)) =~= pairs_map(s).remove(s[i].0),
        unique_keys(s.remove(i)),
    decreases s.len(),
{
    let u = s.remove(i);
    let t = s.drop_last();
    assert(unique_keys(t)) by {
        assert forall|a: int, b: int| 0 <= a < t.len() && 0 <= b < t.len() && a != b implies t[a].0
            != t[b].0 by {
            assert(t[a] == s[a] && t[b] == s[b]);
        }
    }
    assert(unique_keys(u)) by {
        assert forall|a: int, b: int| 0 <= a < u.len() && 0 <= b < u.len() && a != b implies u[a].0
            != u[b].0 by {
            let a2 = if a < i { a } else { a + 1 };
            let b2 = if b < i { b } else { b + 1 };
            assert(u[a] == s[a2] && u[b] == s[b2]);
        }
    }
    if i == s.len() - 1 {
        assert(u =~= t);
        assert forall|j: int| 0 <= j < t.len() implies t[j].0 != s[i].0 by {
            assert(t[j] == s[j]);
        }
        lemma_pairs_map_absent(t, s[i].0);
    } else {
        assert(u.drop_last() =~= t.remove(i));
        assert(u.last() == s.last());
        lemma_pairs_map_remove(t, i);
        assert(t[i] == s[i]);
        assert(s[s.len() - 1].0 != s[i].0);
    }
}

/// Whether two byte strings are equal.
pub fn bytes_eq(a: &[u8], b: &[u8]) -> (r: bool)
    ensures
        r == (a@ == b@),
{
    if a.len() != b.len() {
        return false;
    }
    let mut i: usize = 0;
    while i < a.len()
        invariant
            a@.len() == b@.len(),
            i <= a@.len(),
            a@.subrange(0, i as int) == b@.subrange(0, i as int),
        decreases a@.len() - i,
    {
        if a[i] != b[i] {
            assert(a@[i as int] != b@[i as int]);
            return false;
        }
        assert(a@.subrange(0, i + 1) =~= a@.subrange(0, i as int).push(a@[i as int]));
        assert(b@.subrange(0, i + 1) =~= b@.subrange(0, i as int).push(b@[i as int]));
        i = i + 1;
    }
    assert(a@ =~= a@.subrange(0, i as int));
    assert(b@ =~= b@.subrange(0, i as int));
    true
}

/// An owned copy of a byte string.
pub fn copy_bytes(a: &[u8]) -> (r: Vec<u8>)
    ensures
        r@ == a@,
{
    let mut r: Vec<u8> = Vec::new();
    let mut i: usize = 0;
    while i < a.len()
        invariant
            i <= a@.len(),
            r@ =~= a@.subrange(0, i as int),
        decreases a@.len() - i,
    {
        r.push(a[i]);
        i = i + 1;
    }
    assert(a@ =~= a@.subrange(0, i as int));
    r
}

/// A table with unique keys.
pub struct Table {
    entries: Vec<(Vec<u8>, Vec<u8>)>,
}

impl View for Table {
    type V = Map<Seq<u8>, Seq<u8>>;

    closed spec fn view(&self) -> Map<Seq<u8>, Seq<u8>> {
        pairs_map(pairs_view(self.entries@))
    }
}

impl Table {
    /// The table's entries, as values, in the order in which it holds them.
    pub closed spec fn pairs(&self) -> Seq<Pair> {
        pairs_view(self.entries@)
    }

    /// No key appears twice.
    pub open spec fn wf(&self) -> bool {
        unique_keys(self.pairs())
    }

    pub proof fn lemma_view(&self)
        ensures
            self@ == pairs_map(self.pairs()),
    {
    }

    /// An empty table.
    pub fn new() -> (r: Table)
        ensures
            r.wf(),
            r@ == Map::<Seq<u8>, Seq<u8>>::empty(),
            r.pairs().len() == 0,
    {
        let r = Table { entries: Vec::new() };
        assert(r.pairs() =~= Seq::<Pair>::empty());
        r
    }

    /// The position of `key`, if the table holds it.
    fn find(&self, key: &[u8]) -> (r: Option<usize>)
        requires
            self.wf(),
        ensures
            r is Some ==> r->Some_0 < self.pairs().len() && self.pairs()[r->Some_0 as int].0 == key@,
            r is None ==> forall|i: int| 0 <= i < self.pairs().len() ==> self.pairs()[i].0 != key@,
    {
        let mut i: usize = 0;
        while i < self.entries.len()
            invariant
                i <= self.entries@.len(),
                self.pairs().len() == self.entries@.len(),
                forall|j: int| 0 <= j < i ==> self.pairs()[j].0 != key@,
            decreases self.entries@.len() - i,
        {
            if bytes_eq(self.entries[i].0.as_slice(), key) {
                return Some(i);
            }
            i = i + 1;
        }
        None
    }

    /// The value of `key`, if the table holds it.
    pub fn get(&self, key: &[u8]) -> (r: Option<Vec<u8>>)
        requires
            self.wf(),
        ensures
            r is Some <==> self@.contains_key(key@),
            r is Some ==> r->Some_0@ == self@[key@],
    {
        match self.find(key) {
            Some(i) => {
                proof {
                    lemma_pairs_map_index(self.pairs(), i as int);
                }
                Some(copy_bytes(self.entries[i].1.as_slice()))
            },
            None => {
                proof {
                    lemma_pairs_map_absent(self.pairs(), key@);
                }
                None
            },
        }
    }

    /// Sets the value of `key`.
    pub fn put(&mut self, key: &[u8], value: &[u8])
        requires
            old(self).wf(),
        ensures
            final(self).wf(),
            final(self)@ == old(self)@.insert(key@, value@),
    {
        let ghost s = self.pairs();
        match self.find(key) {
            Some(i) => {
                let k = copy_bytes(self.entries[i].0.as_slice());
                self.entries.set(i, (k, copy_bytes(value)));
                proof {
                    lemma_pairs_map_update(s, i as int, value@);
                    assert(self.pairs() =~= s.update(i as int, (s[i as int].0, value@)));
                }
            },
            None => {
                self.entries.push((copy_bytes(key), copy_bytes(value)));
                proof {
                    assert(self.pairs() =~= s.push((key@, value@)));
                    assert(self.pairs().drop_last() =~= s);
                }
            },
        }
    }

    /// Removes `key`, if the table holds it.
    pub fn remove(&mut self, key: &[u8])
        requires
            old(self).wf(),
        ensures
            final(self).wf(),
            final(self)@ == old(self)@.remove(key@),
    {
        let ghost s = self.pairs();
        match self.find(key) {
            Some(i) => {
                self.entries.remove(i);
                proof {
                    lemma_pairs_map_remove(s, i as int);
                    assert(self.pairs() =~= s.remove(i as int));
                }
            },
            None => {
                proof {
                    lemma_pairs_map_absent(s, key@);
                    assert(self@ =~= old(self)@.remove(key@));
                }
            },
        }
    }

    /// A copy of the entries, in the table's order.
    pub fn to_pairs(&self) -> (r: Vec<(Vec<u8>, Vec<u8>)>)
        ensures
            pairs_view(r@) == self.pairs(),
    {
        let mut r: Vec<(Vec<u8>, Vec<u8>)> = Vec::new();
        let mut i: usize = 0;
        while i < self.entries.len()
            invariant
                i <= self.entries@.len(),
                pairs_view(r@) =~= self.pairs().subrange(0, i as int),
            decreases self.entries@.len() - i,
        {
            let p = (copy_bytes(self.entries[i].0.as_slice()), copy_bytes(self.entries[i].1.as_slice()));
            let ghost prev = r@;
            r.push(p);
            proof {
                assert(pairs_view(r@) =~= pairs_view(prev).push((p.0@, p.1@)));
                assert(self.pairs()[i as int] == (self.entries@[i as int].0@, self.entries@[i as int].1@));
                assert(pairs_view(r@) =~= self.pairs().subrange(0, i + 1));
            }
            i = i + 1;
        }
        assert(self.pairs().subrange(0, i as int) =~= self.pairs());
        r
    }

    /// A table from pairs; a later pair wins over an earlier one with the same key.
    pub fn from_pairs(pairs: &Vec<(Vec<u8>, Vec<u8>)>) -> (r: Table)
        ensures
            r.wf(),
            r@ == pairs_map(pairs_view(pairs@)),
    {
        let mut r = Table::new();
        let mut i: usize = 0;
        while i < pairs.len()
            invariant
                i <= pairs@.len(),
                r.wf(),
                r@ == pairs_map(pairs_view(pairs@).subrange(0, i as int)),
            decreases pairs@.len() - i,
        {
            r.put(pairs[i].0.as_slice(), pairs[i].1.as_slice());
            proof {
                let s = pairs_view(pairs@).subrange(0, i + 1);
                assert(s.drop_last() =~= pairs_view(pairs@).subrange(0, i as int));
            }
            i = i + 1;
        }
        assert(pairs_view(pairs@).subrange(0, i as int) =~= pairs_view(pairs@));
        r
    }
}

impl Clone for Table {
    fn clone(&self) -> (r: Table)
        ensures
            r.pairs() == self.pairs(),
            r@ == self@,
    {
        let r = Table { entries: self.to_pairs() };
        r
    }
}

} // verus!
