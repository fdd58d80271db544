//! Name-keyed maps: an assignment of integer values to variable names, and a
//! table of domains (lists of candidate values) per variable name.
//!
//! Both are association lists whose keys never repeat; their view is a `Map`
//! from the name (as a sequence of characters) to the value.
use vstd::prelude::*;

verus! {

/// The pair list holds the key `k`.
pub open spec fn assoc_has<K, V>(p: Seq<(K, V)>, k: K) -> bool {
    exists|i: int| 0 <= i < p.len() && #[trigger] p[i].0 == k
}

/// No key occurs twice in the pair list.
pub open spec fn keys_unique<K, V>(p: Seq<(K, V)>) -> bool {
    forall|i: int, j: int|
        0 <= i < p.len() && 0 <= j < p.len() && i != j ==> #[trigger] p[i].0 != #[trigger] p[j].0
}

/// The map that a pair list denotes.
pub open spec fn assoc_map<K, V>(p: Seq<(K, V)>) -> Map<K, V> {
    Map::new(
        |k: K| assoc_has(p, k),
        |k: K| p[choose|i: int| 0 <= i < p.len() && #[trigger] p[i].0 == k].1,
    )
}

pub proof fn lemma_assoc_index<K, V>(p: Seq<(K, V)>, i: int)
    requires
        keys_unique(p),
        0 <= i < p.len(),
    ensures
        assoc_map(p).contains_key(p[i].0),
        assoc_map(p)[p[i].0] == p[i].1,
{
    assert(assoc_has(p, p[i].0));
    let j = choose|j: int| 0 <= j < p.len() && #[trigger] p[j].0 == p[i].0;
    assert(p[j].0 == p[i].0);
}

pub proof fn lemma_assoc_push<K, V>(p: Seq<(K, V)>, k: K, v: V)
    requires
        keys_unique(p),
        !assoc_has(p, k),
    ensures
        keys_unique(p.push((k, v))),
        assoc_map(p.push((k, v))) == assoc_map(p).insert(k, v),
{
    let q = p.push((k, v));
    assert(keys_unique(q)) by {
        assert forall|i: int, j: int|
            0 <= i < q.len() && 0 <= j < q.len() && i != j implies #[trigger] q[i].0
            != #[trigger] q[j].0 by {
            if i < p.len() && j < p.len() {
                assert(q[i] == p[i] && q[j] == p[j]);
            } else if i < p.len() {
                assert(q[i] == p[i]);
            } else {
                assert(q[j] == p[j]);
            }
        }
    }
    assert forall|key: K| #[trigger]
        assoc_map(q).contains_key(key) == assoc_map(p).insert(k, v).contains_key(key) by {
        if assoc_has(p, key) {
            let i = choose|i: int| 0 <= i < p.len() && #[trigger] p[i].0 == key;
            assert(q[i] == p[i]);
        }
        if assoc_has(q, key) && key != k {
            let i = choose|i: int| 0 <= i < q.len() && #[trigger] q[i].0 == key;
            assert(i < p.len());
            assert(p[i] == q[i]);
        }
        assert(q[p.len() as int].0 == k);
    }
    assert forall|key: K| #[trigger] assoc_map(q).contains_key(key) implies assoc_map(q)[key]
        == assoc_map(p).insert(k, v)[key] by {
        let i = choose|i: int| 0 <= i < q.len() && #[trigger] q[i].0 == key;
        lemma_assoc_index(q, i);
        if i < p.len() {
            assert(q[i] == p[i]);
            lemma_assoc_index(p, i);
        }
    }
    assert(assoc_map(q) =~= assoc_map(p).insert(k, v));
}

pub proof fn lemma_assoc_update<K, V>(p: Seq<(K, V)>, i: int, v: V)
    requires
        keys_unique(p),
        0 <= i < p.len(),
    ensures
        keys_unique(p.update(i, (p[i].0, v))),
        assoc_map(p.update(i, (p[i].0, v))) == assoc_map(p).insert(p[i].0, v),
{
    let k = p[i].0;
    let q = p.update(i, (k, v));
    assert forall|a: int, b: int|
        0 <= a < q.len() && 0 <= b < q.len() && a != b implies #[trigger] q[a].0
        != #[trigger] q[b].0 by {
        assert(q[a].0 == p[a].0 && q[b].0 == p[b].0);
    }
    assert forall|key: K| #[trigger]
        assoc_map(q).contains_key(key) == assoc_map(p).insert(k, v).contains_key(key) by {
        if assoc_has(p, key) {
            let j = choose|j: int| 0 <= j < p.len() && #[trigger] p[j].0 == key;
            assert(q[j].0 == p[j].0);
        }
        if assoc_has(q, key) {
            let j = choose|j: int| 0 <= j < q.len() && #[trigger] q[j].0 == key;
            assert(q[j].0 == p[j].0);
        }
        assert(q[i].0 == k);
    }
    assert forall|key: K| #[trigger] assoc_map(q).contains_key(key) implies assoc_map(q)[key]
        == assoc_map(p).insert(k, v)[key] by {
        let j = choose|j: int| 0 <= j < q.len() && #[trigger] q[j].0 == key;
        lemma_assoc_index(q, j);
        if j != i {
            assert(q[j] == p[j]);
            lemma_assoc_index(p, j);
        }
    }
    assert(assoc_map(q) =~= assoc_map(p).insert(k, v));
}

pub proof fn lemma_assoc_remove<K, V>(p: Seq<(K, V)>, i: int)
    requires
        keys_unique(p),
        0 <= i < p.len(),
    ensures
        keys_unique(p.remove(i)),
        assoc_map(p.remove(i)) == assoc_map(p).remove(p[i].0),
{
    let k = p[i].0;
    let q = p.remove(i);
    assert forall|a: int| 0 <= a < q.len() implies #[trigger] q[a] == (if a < i {
        p[a]
    } else {
        p[a + 1]
    }) by {}
    assert forall|a: int, b: int|
        0 <= a < q.len() && 0 <= b < q.len() && a != b implies #[trigger] q[a].0
        != #[trigger] q[b].0 by {
        let pa = if a < i { a } else { a + 1 };
        let pb = if b < i { b } else { b + 1 };
        assert(q[a] == p[pa] && q[b] == p[pb]);
    }
    assert forall|key: K| #[trigger]
        assoc_map(q).contains_key(key) == assoc_map(p).remove(k).contains_key(key) by {
        if assoc_has(p, key) && key != k {
            let j = choose|j: int| 0 <= j < p.len() && #[trigger] p[j].0 == key;
            assert(j != i);
            let qj = if j < i { j } else { j - 1 };
            assert(q[qj] == p[j]);
        }
        if assoc_has(q, key) {
            let j = choose|j: int| 0 <= j < q.len() && #[trigger] q[j].0 == key;
            let pj = if j < i { j } else { j + 1 };
            assert(q[j] == p[pj]);
            assert(pj != i);
        }
    }
    assert forall|key: K| #[trigger] assoc_map(q).contains_key(key) implies assoc_map(q)[key]
        == assoc_map(p).remove(k)[key] by {
        let j = choose|j: int| 0 <= j < q.len() && #[trigger] q[j].0 == key;
        lemma_assoc_index(q, j);
        let pj = if j < i { j } else { j + 1 };
        assert(q[j] == p[pj]);
        lemma_assoc_index(p, pj);
    }
    assert(assoc_map(q) =~= assoc_map(p).remove(k));
}

/// A pair list whose keys are distinct denotes a map with one key per pair.
pub proof fn lemma_assoc_len<K, V>(p: Seq<(K, V)>)
    requires
        keys_unique(p),
    ensures
        assoc_map(p).dom().finite(),
        assoc_map(p).dom().len() == p.len(),
    decreases p.len(),
{
    if p.len() == 0 {
        assert(assoc_map(p).dom() =~= Set::<K>::empty());
    } else {
        let q = p.drop_last();
        let e = p.last();
        assert forall|i: int, j: int|
            0 <= i < q.len() && 0 <= j < q.len() && i != j implies #[trigger] q[i].0
            != #[trigger] q[j].0 by {
            assert(q[i] == p[i] && q[j] == p[j]);
        }
        lemma_assoc_len(q);
        assert(!assoc_has(q, e.0)) by {
            if assoc_has(q, e.0) {
                let i = choose|i: int| 0 <= i < q.len() && #[trigger] q[i].0 == e.0;
                assert(q[i] == p[i]);
                assert(p[p.len() - 1].0 == e.0);
            }
        }
        lemma_assoc_push(q, e.0, e.1);
        assert(q.push((e.0, e.1)) =~= p);
    }
}

/// Copies a list of integers.
pub fn copy_values(v: &Vec<i64>) -> (r: Vec<i64>)
    ensures
        r@ == v@,
{
    let mut r: Vec<i64> = Vec::new();
    let mut i: usize = 0;
    while i < v.len()
        invariant
            i <= v.len(),
            r@ == v@.subrange(0, i as int),
        decreases v.len() - i,
    {
        r.push(v[i]);
        i += 1;
        assert(r@ =~= v@.subrange(0, i as int));
    }
    assert(r@ =~= v@);
    r
}

/// Entries of an assignment, keys taken by their characters.
pub open spec fn value_pairs(s: Seq<(String, i64)>) -> Seq<(Seq<char>, i64)> {
    s.map_values(|e: (String, i64)| (e.0@, e.1))
}

/// Entries of a domain table, keys and values taken by their views.
pub open spec fn domain_pairs(s: Seq<(String, Vec<i64>)>) -> Seq<(Seq<char>, Seq<i64>)> {
    s.map_values(|e: (String, Vec<i64>)| (e.0@, e.1@))
}

/// An assignment of integer values to variable names.
#[derive(Debug)]
pub struct Assignment {
    entries: Vec<(String, i64)>,
}

impl Assignment {
    /// The entries, keys taken by their characters.
    pub closed spec fn pairs(&self) -> Seq<(Seq<char>, i64)> {
        value_pairs(self.entries@)
    }

    #[verifier::type_invariant]
    closed spec fn wf(&self) -> bool {
        keys_unique(self.pairs())
    }
}

impl View for Assignment {
    type V = Map<Seq<char>, i64>;

    closed spec fn view(&self) -> Map<Seq<char>, i64> {
        assoc_map(self.pairs())
    }
}

impl Assignment {
    /// The empty assignment.
    pub fn new() -> (r: Self)
        ensures
            r@ == Map::<Seq<char>, i64>::empty(),
    {
        let r = Assignment { entries: Vec::new() };
        assert(r@ =~= Map::<Seq<char>, i64>::empty());
        r
    }

    fn find(&self, key: &String) -> (r: Option<usize>)
        ensures
            match r {
                Some(i) => i < self.entries@.len() && self.pairs()[i as int].0 == key@
                    && self@.contains_key(key@) && self@[key@] == self.entries@[i as int].1,
                None => !self@.contains_key(key@),
            },
    {
        proof {
            use_type_invariant(self);
        }
        let mut i: usize = 0;
        while i < self.entries.len()
            invariant
                i <= self.entries@.len(),
                keys_unique(self.pairs()),
                forall|j: int| 0 <= j < i ==> self.pairs()[j].0 != key@,
            decreases self.entries@.len() - i,
        {
            if self.entries[i].0 == *key {
                proof {
                    lemma_assoc_index(self.pairs(), i as int);
                }
                return Some(i);
            }
            i += 1;
        }
        proof {
            if self@.contains_key(key@) {
                let j = choose|j: int|
                    0 <= j < self.pairs().len() && #[trigger] self.pairs()[j].0 == key@;
            }
        }
        None
    }

    /// Whether `key` has a value.
    pub fn contains_key(&self, key: &str) -> (r: bool)
        ensures
            r == self@.contains_key(key@),
    {
        let k = key.to_owned();
        self.find(&k).is_some()
    }

    /// The value of `key`, if it has one.
    pub fn get(&self, key: &str) -> (r: Option<i64>)
        ensures
            r == (if self@.contains_key(key@) {
                Some(self@[key@])
            } else {
                None
            }),
    {
        let k = key.to_owned();
        self.get_name(&k)
    }

    /// The value of `key`, if it has one.
    pub fn get_name(&self, key: &String) -> (r: Option<i64>)
        ensures
            r == (if self@.contains_key(key@) {
                Some(self@[key@])
            } else {
                None
            }),
    {
        match self.find(key) {
            Some(i) => Some(self.entries[i].1),
            None => None,
        }
    }

    /// Whether `key` has a value.
    pub fn has_name(&self, key: &String) -> (r: bool)
        ensures
            r == self@.contains_key(key@),
    {
        self.find(key).is_some()
    }

    /// Gives `key` the value `value`, replacing any value it had.
    pub fn insert(&mut self, key: &str, value: i64)
        ensures
            final(self)@ == old(self)@.insert(key@, value),
    {
        let k = key.to_owned();
        self.insert_name(k, value)
    }

    /// Gives `key` the value `value`, replacing any value it had.
    pub fn insert_name(&mut self, key: String, value: i64)
        ensures
            final(self)@ == old(self)@.insert(key@, value),
    {
        proof {
            use_type_invariant(&*self);
        }
        match self.find(&key) {
            Some(i) => {
                let ghost p = self.pairs();
                proof {
                    lemma_assoc_update(p, i as int, value);
                }
                let mut e: Vec<(String, i64)> = Vec::new();
                std::mem::swap(&mut e, &mut self.entries);
                e.set(i, (key, value));
                assert(value_pairs(e@) =~= p.update(i as int, (p[i as int].0, value)));
                self.entries = e;
                assert(self.pairs() =~= p.update(i as int, (p[i as int].0, value)));
            },
            None => {
                let ghost p = self.pairs();
                let ghost k = key@;
                proof {
                    assert(!assoc_has(p, k));
                    lemma_assoc_push(p, k, value);
                }
                let mut e: Vec<(String, i64)> = Vec::new();
                std::mem::swap(&mut e, &mut self.entries);
                e.push((key, value));
                assert(value_pairs(e@) =~= p.push((k, value)));
                self.entries = e;
                assert(self.pairs() =~= p.push((k, value)));
            },
        }
    }

    /// Takes the value of `key` out, if it has one.
    pub fn remove(&mut self, key: &str) -> (r: Option<i64>)
        ensures
            final(self)@ == old(self)@.remove(key@),
            r == (if old(self)@.contains_key(key@) {
                Some(old(self)@[key@])
            } else {
                None
            }),
    {
        let k = key.to_owned();
        self.remove_name(&k)
    }

    /// Takes the value of `key` out, if it has one.
    pub fn remove_name(&mut self, key: &String) -> (r: Option<i64>)
        ensures
            final(self)@ == old(self)@.remove(key@),
            r == (if old(self)@.contains_key(key@) {
                Some(old(self)@[key@])
            } else {
                None
            }),
    {
        proof {
            use_type_invariant(&*self);
        }
        match self.find(key) {
            Some(i) => {
                let ghost p = self.pairs();
                proof {
                    lemma_assoc_remove(p, i as int);
                }
                let mut e: Vec<(String, i64)> = Vec::new();
                std::mem::swap(&mut e, &mut self.entries);
                let removed = e.remove(i);
                assert(value_pairs(e@) =~= p.remove(i as int));
                self.entries = e;
                assert(self.pairs() =~= p.remove(i as int));
                Some(removed.1)
            },
            None => {
                assert(old(self)@.remove(key@) =~= old(self)@);
                None
            },
        }
    }

    /// A copy of this assignment.
    pub fn duplicate(&self) -> (r: Self)
        ensures
            r@ == self@,
    {
        proof {
            use_type_invariant(self);
        }
        let mut entries: Vec<(String, i64)> = Vec::new();
        let mut i: usize = 0;
        while i < self.entries.len()
            invariant
                i <= self.entries@.len(),
                entries@.len() == i,
                forall|j: int| 0 <= j < i ==> entries@[j].0@ == self.entries@[j].0@
                    && entries@[j].1 == self.entries@[j].1,
            decreases self.entries@.len() - i,
        {
            let k = self.entries[i].0.clone();
            entries.push((k, self.entries[i].1));
            i += 1;
        }
        assert(value_pairs(entries@) =~= self.pairs());
        let r = Assignment { entries };
        assert(r.pairs() =~= self.pairs());
        r
    }
}

/// The candidate values of each variable name.
#[derive(Debug)]
pub struct DomainMap {
    entries: Vec<(String, Vec<i64>)>,
}

impl DomainMap {
    /// The entries, keys taken by their characters and values by their elements.
    pub closed spec fn pairs(&self) -> Seq<(Seq<char>, Seq<i64>)> {
        domain_pairs(self.entries@)
    }

    #[verifier::type_invariant]
    closed spec fn wf(&self) -> bool {
        keys_unique(self.pairs())
    }

    /// The keys in the order in which they stand.
    pub closed spec fn key_seq(&self) -> Seq<Seq<char>> {
        self.pairs().map_values(|e: (Seq<char>, Seq<i64>)| e.0)
    }
}

impl View for DomainMap {
    type V = Map<Seq<char>, Seq<i64>>;

    closed spec fn view(&self) -> Map<Seq<char>, Seq<i64>> {
        assoc_map(self.pairs())
    }
}

impl DomainMap {
    /// The empty table.
    pub fn new() -> (r: Self)
        ensures
            r@ == Map::<Seq<char>, Seq<i64>>::empty(),
    {
        let r = DomainMap { entries: Vec::new() };
        assert(r@ =~= Map::<Seq<char>, Seq<i64>>::empty());
        r
    }

    fn find(&self, key: &String) -> (r: Option<usize>)
        ensures
            match r {
                Some(i) => i < self.entries@.len() && self.pairs()[i as int].0 == key@
                    && self@.contains_key(key@) && self@[key@] == self.entries@[i as int].1@,
                None => !self@.contains_key(key@),
            },
    {
        proof {
            use_type_invariant(self);
        }
        let mut i: usize = 0;
        while i < self.entries.len()
            invariant
                i <= self.entries@.len(),
                keys_unique(self.pairs()),
                forall|j: int| 0 <= j < i ==> self.pairs()[j].0 != key@,
            decreases self.entries@.len() - i,
        {
            if self.entries[i].0 == *key {
                proof {
                    lemma_assoc_index(self.pairs(), i as int);
                }
                return Some(i);
            }
            i += 1;
        }
        proof {
            if self@.contains_key(key@) {
                let j = choose|j: int|
                    0 <= j < self.pairs().len() && #[trigger] self.pairs()[j].0 == key@;
            }
        }
        None
    }

    /// Number of entries; the keys are listed once each.
    pub fn len(&self) -> (r: usize)
        ensures
            r == self.key_seq().len(),
            self.key_seq().no_duplicates(),
            forall|k: Seq<char>| #[trigger] self@.contains_key(k) <==> self.key_seq().contains(k),
    {
        proof {
            use_type_invariant(self);
            let ks = self.key_seq();
            let p = self.pairs();
            assert forall|i: int, j: int|
                0 <= i < ks.len() && 0 <= j < ks.len() && i != j implies ks[i] != ks[j] by {
                assert(ks[i] == p[i].0 && ks[j] == p[j].0);
            }
            assert forall|k: Seq<char>| #[trigger] self@.contains_key(k) <==> ks.contains(k) by {
                if self@.contains_key(k) {
                    let i = choose|i: int| 0 <= i < p.len() && #[trigger] p[i].0 == k;
                    assert(ks[i] == k);
                }
                if ks.contains(k) {
                    let i = choose|i: int| 0 <= i < ks.len() && ks[i] == k;
                    assert(p[i].0 == k);
                }
            }
        }
        self.entries.len()
    }

    /// Appends `values` to the values of `key`, which start empty when it has
    /// no entry.
    pub fn append_values(&mut self, key: String, values: &Vec<i64>)
        ensures
            final(self)@ == old(self)@.insert(
                key@,
                (if old(self)@.contains_key(key@) {
                    old(self)@[key@]
                } else {
                    Seq::empty()
                }) + values@,
            ),
            old(self)@.contains_key(key@) ==> final(self).key_seq() == old(self).key_seq(),
    {
        let mut merged: Vec<i64> = match self.get_name(&key) {
            Some(v) => copy_values(v),
            None => Vec::new(),
        };
        let mut i: usize = 0;
        let ghost start = merged@;
        while i < values.len()
            invariant
                i <= values@.len(),
                merged@ == start + values@.subrange(0, i as int),
            decreases values@.len() - i,
        {
            merged.push(values[i]);
            i += 1;
            assert(merged@ =~= start + values@.subrange(0, i as int));
        }
        assert(values@.subrange(0, values@.len() as int) =~= values@);
        self.insert_name(key, merged);
    }

    /// The key and the values of the entry at `i`.
    pub fn entry(&self, i: usize) -> (r: (&String, &Vec<i64>))
        requires
            i < self.key_seq().len(),
        ensures
            r.0@ == self.key_seq()[i as int],
            self@.contains_key(r.0@),
            r.1@ == self@[r.0@],
    {
        proof {
            use_type_invariant(self);
            lemma_assoc_index(self.pairs(), i as int);
        }
        (&self.entries[i].0, &self.entries[i].1)
    }

    /// Whether `key` has an entry.
    pub fn contains_key(&self, key: &str) -> (r: bool)
        ensures
            r == self@.contains_key(key@),
    {
        let k = key.to_owned();
        self.find(&k).is_some()
    }

    /// Whether `key` has an entry.
    pub fn has_name(&self, key: &String) -> (r: bool)
        ensures
            r == self@.contains_key(key@),
    {
        self.find(key).is_some()
    }

    /// The values of `key`, if it has an entry.
    pub fn get(&self, key: &str) -> (r: Option<&Vec<i64>>)
        ensures
            r.is_some() == self@.contains_key(key@),
            r.is_some() ==> r.unwrap()@ == self@[key@],
    {
        let k = key.to_owned();
        self.get_name(&k)
    }

    /// The values of `key`, if it has an entry.
    pub fn get_name(&self, key: &String) -> (r: Option<&Vec<i64>>)
        ensures
            r.is_some() == self@.contains_key(key@),
            r.is_some() ==> r.unwrap()@ == self@[key@],
    {
        match self.find(key) {
            Some(i) => Some(&self.entries[i].1),
            None => None,
        }
    }

    /// Sets the values of `key`, replacing any it had.
    pub fn insert(&mut self, key: &str, values: Vec<i64>)
        ensures
            final(self)@ == old(self)@.insert(key@, values@),
    {
        let k = key.to_owned();
        self.insert_name(k, values)
    }

    /// Sets the values of `key`, replacing any it had.
    pub fn insert_name(&mut self, key: String, values: Vec<i64>)
        ensures
            final(self)@ == old(self)@.insert(key@, values@),
            old(self)@.contains_key(key@) ==> final(self).key_seq() == old(self).key_seq(),
    {
        proof {
            use_type_invariant(&*self);
        }
        let ghost vs = values@;
        match self.find(&key) {
            Some(i) => {
                let ghost p = self.pairs();
                proof {
                    lemma_assoc_update(p, i as int, vs);
                }
                let mut e: Vec<(String, Vec<i64>)> = Vec::new();
                std::mem::swap(&mut e, &mut self.entries);
                e.set(i, (key, values));
                assert(domain_pairs(e@) =~= p.update(i as int, (p[i as int].0, vs)));
                self.entries = e;
                assert(self.pairs() =~= p.update(i as int, (p[i as int].0, vs)));
                assert(self.key_seq() =~= old(self).key_seq());
            },
            None => {
                let ghost p = self.pairs();
                let ghost k = key@;
                proof {
                    assert(!assoc_has(p, k));
                    lemma_assoc_push(p, k, vs);
                }
                let mut e: Vec<(String, Vec<i64>)> = Vec::new();
                std::mem::swap(&mut e, &mut self.entries);
                e.push((key, values));
                assert(domain_pairs(e@) =~= p.push((k, vs)));
                self.entries = e;
                assert(self.pairs() =~= p.push((k, vs)));
            },
        }
    }

    /// A copy of this table.
    pub fn duplicate(&self) -> (r: Self)
        ensures
            r@ == self@,
            r.key_seq() == self.key_seq(),
    {
        proof {
            use_type_invariant(self);
        }
        let mut entries: Vec<(String, Vec<i64>)> = Vec::new();
        let mut i: usize = 0;
        while i < self.entries.len()
            invariant
                i <= self.entries@.len(),
                entries@.len() == i,
                forall|j: int| 0 <= j < i ==> entries@[j].0@ == self.entries@[j].0@
                    && entries@[j].1@ == self.entries@[j].1@,
            decreases self.entries@.len() - i,
        {
            let k = self.entries[i].0.clone();
            let v = copy_values(&self.entries[i].1);
            entries.push((k, v));
            i += 1;
        }
        assert(domain_pairs(entries@) =~= self.pairs());
        let r = DomainMap { entries };
        assert(r.pairs() =~= self.pairs());
        assert(r.key_seq() =~= self.key_seq());
        r
    }
}

} // verus!
