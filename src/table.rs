//! A table keyed by text, in which a later insertion under a key replaces the earlier one.

use vstd::prelude::*;

verus! {

/// Entries with distinct keys, in order of first insertion.
#[derive(Debug)]
pub struct Table<V> {
    entries: Vec<(String, V)>,
}

/// The map that a sequence of entries describes: a later entry wins.
pub open spec fn map_of<V: DeepView>(s: Seq<(String, V)>) -> Map<Seq<char>, V::V>
    decreases s.len(),
{
    if s.len() == 0 {
        Map::empty()
    } else {
        map_of(s.drop_last()).insert(s.last().0@, s.last().1.deep_view())
    }
}

pub open spec fn keys_distinct<V>(s: Seq<(String, V)>) -> bool {
    forall|i: int, j: int| 0 <= i < j < s.len() ==> s[i].0@ != s[j].0@
}

proof fn lemma_map_of_index<V: DeepView>(s: Seq<(String, V)>, i: int)
    requires
        keys_distinct(s),
        0 <= i < s.len(),
    ensures
        map_of(s).contains_key(s[i].0@),
        map_of(s)[s[i].0@] == s[i].1.deep_view(),
    decreases s.len(),
{
    if i < s.len() - 1 {
        lemma_map_of_index(s.drop_last(), i);
    }
}

proof fn lemma_map_of_missing<V: DeepView>(s: Seq<(String, V)>, k: Seq<char>)
    requires
        forall|i: int| 0 <= i < s.len() ==> s[i].0@ != k,
    ensures
        !map_of(s).contains_key(k),
    decreases s.len(),
{
    if s.len() > 0 {
        lemma_map_of_missing(s.drop_last(), k);
    }
}

proof fn lemma_map_of_update<V: DeepView>(s: Seq<(String, V)>, i: int, e: (String, V))
    requires
        keys_distinct(s),
        0 <= i < s.len(),
        s[i].0@ == e.0@,
    ensures
        map_of(s.update(i, e)) == map_of(s).insert(e.0@, e.1.deep_view()),
    decreases s.len(),
{
    let t = s.update(i, e);
    if i == s.len() - 1 {
        assert(t.drop_last() =~= s.drop_last());
        assert(map_of(t) =~= map_of(s).insert(e.0@, e.1.deep_view()));
    } else {
        assert(t.drop_last() =~= s.drop_last().update(i, e));
        lemma_map_of_update(s.drop_last(), i, e);
        assert(map_of(t) =~= map_of(s).insert(e.0@, e.1.deep_view()));
    }
}

proof fn lemma_map_of_keys<V: DeepView>(s: Seq<(String, V)>)
    ensures
        forall|k: Seq<char>| #[trigger]
            map_of(s).contains_key(k) ==> exists|i: int| 0 <= i < s.len() && s[i].0@ == k,
    decreases s.len(),
{
    if s.len() > 0 {
        lemma_map_of_keys(s.drop_last());
        assert forall|k: Seq<char>| #[trigger] map_of(s).contains_key(k) implies exists|i: int|
            0 <= i < s.len() && s[i].0@ == k by {
            if k != s.last().0@ {
                assert(map_of(s.drop_last()).contains_key(k));
                let i = choose|i: int| 0 <= i < s.drop_last().len() && s.drop_last()[i].0@ == k;
                assert(s[i].0@ == k);
            } else {
                assert(s[s.len() - 1].0@ == k);
            }
        }
    }
}

impl<V: DeepView> View for Table<V> {
    type V = Map<Seq<char>, V::V>;

    closed spec fn view(&self) -> Map<Seq<char>, V::V> {
        map_of(self.entries@)
    }
}

proof fn lemma_key_list<V: DeepView>(s: Seq<(String, V)>)
    requires
        keys_distinct(s),
    ensures
        ({
            let ks = s.map_values(|e: (String, V)| e.0@);
            &&& ks.len() == map_of(s).dom().len()
            &&& ks.to_set() == map_of(s).dom()
            &&& ks.no_duplicates()
        }),
{
    let ks = s.map_values(|e: (String, V)| e.0@);
    lemma_map_of_keys(s);
    assert forall|k: Seq<char>| ks.contains(k) <==> map_of(s).dom().contains(k) by {
        if ks.contains(k) {
            let i = choose|i: int| 0 <= i < ks.len() && ks[i] == k;
            lemma_map_of_index(s, i);
        }
        if map_of(s).dom().contains(k) {
            let i = choose|i: int| 0 <= i < s.len() && s[i].0@ == k;
            assert(ks[i] == k);
        }
    }
    assert(ks.to_set() =~= map_of(s).dom());
    ks.unique_seq_to_set();
}

impl<V> Table<V> {
    #[verifier::type_invariant]
    spec fn inv(&self) -> bool {
        keys_distinct(self.entries@)
    }
}

impl<V: DeepView> Table<V> {
    /// The keys in order of first insertion.
    pub closed spec fn key_seq(&self) -> Seq<Seq<char>> {
        self.entries@.map_values(|e: (String, V)| e.0@)
    }

    pub fn new() -> (r: Self)
        ensures
            r@ == Map::<Seq<char>, V::V>::empty(),
            r.key_seq() == Seq::<Seq<char>>::empty(),
    {
        let r = Table { entries: Vec::new() };
        assert(keys_distinct(r.entries@));
        assert(r.key_seq() =~= Seq::<Seq<char>>::empty());
        r
    }

    pub fn len(&self) -> (r: usize)
        ensures
            r == self@.dom().len(),
    {
        proof {
            use_type_invariant(self);
            lemma_key_list(self.entries@);
        }
        self.entries.len()
    }

    fn find(&self, key: &String) -> (r: Option<usize>)
        ensures
            match r {
                Some(i) => i < self.entries@.len() && self.entries@[i as int].0@ == key@,
                None => forall|i: int| 0 <= i < self.entries@.len() ==> self.entries@[i].0@ != key@,
            },
    {
        let mut i: usize = 0;
        while i < self.entries.len()
            invariant
                i <= self.entries@.len(),
                forall|j: int| 0 <= j < i ==> self.entries@[j].0@ != key@,
            decreases self.entries@.len() - i,
        {
            if self.entries[i].0 == *key {
                return Some(i);
            }
            i = i + 1;
        }
        None
    }

    /// The value under `key`, if any.
    pub fn get(&self, key: &String) -> (r: Option<&V>)
        ensures
            r is Some <==> self@.contains_key(key@),
            r is Some ==> r->0.deep_view() == self@[key@],
    {
        proof {
            use_type_invariant(self);
        }
        match self.find(key) {
            Some(i) => {
                proof {
                    lemma_map_of_index(self.entries@, i as int);
                }
                Some(&self.entries[i].1)
            },
            None => {
                proof {
                    lemma_map_of_missing(self.entries@, key@);
                }
                None
            },
        }
    }

    /// Whether the table holds `key`.
    pub fn contains_key(&self, key: &String) -> (r: bool)
        ensures
            r == self@.contains_key(key@),
    {
        self.get(key).is_some()
    }

    /// Puts `value` under `key`, replacing what was there.
    pub fn insert(&mut self, key: String, value: V)
        ensures
            final(self)@ == old(self)@.insert(key@, value.deep_view()),
            old(self)@.contains_key(key@) ==> final(self).key_seq() == old(self).key_seq(),
            !old(self)@.contains_key(key@) ==> final(self).key_seq() == old(self).key_seq().push(
                key@,
            ),
    {
        proof {
            use_type_invariant(&*self);
        }
        match self.find(&key) {
            Some(i) => {
                proof {
                    lemma_map_of_index(self.entries@, i as int);
                    lemma_map_of_update(self.entries@, i as int, (key, value));
                }
                let ghost ks = self.key_seq();
                let mut tmp: Table<V> = Table { entries: Vec::new() };
                proof {
                    assert(keys_distinct(tmp.entries@));
                }
                core::mem::swap(self, &mut tmp);
                let Table { entries: mut e } = tmp;
                e.set(i, (key, value));
                proof {
                    assert(keys_distinct(e@));
                }
                *self = Table { entries: e };
                assert(self.key_seq() =~= ks);
            },
            None => {
                proof {
                    lemma_map_of_missing(self.entries@, key@);
                }
                let ghost ks = self.key_seq();
                let ghost k = key@;
                let mut tmp: Table<V> = Table { entries: Vec::new() };
                proof {
                    assert(keys_distinct(tmp.entries@));
                }
                core::mem::swap(self, &mut tmp);
                let Table { entries: mut e } = tmp;
                e.push((key, value));
                proof {
                    assert(e@.drop_last() =~= old(self).entries@);
                    assert(keys_distinct(e@));
                }
                *self = Table { entries: e };
                assert(self.key_seq() =~= ks.push(k));
            },
        }
    }

    /// The keys, in order of first insertion.
    pub fn keys(&self) -> (r: Vec<String>)
        ensures
            r.deep_view() == self.key_seq(),
            self.key_seq().no_duplicates(),
            self.key_seq().to_set() == self@.dom(),
    {
        proof {
            use_type_invariant(self);
            lemma_key_list(self.entries@);
        }
        let mut r: Vec<String> = Vec::new();
        let mut i: usize = 0;
        while i < self.entries.len()
            invariant
                i <= self.entries@.len(),
                r@.len() == i,
                r.deep_view() == self.key_seq().subrange(0, i as int),
            decreases self.entries@.len() - i,
        {
            let ghost before_v = r@;
            let ghost before_d = r.deep_view();
            let k = self.entries[i].0.clone();
            r.push(k);
            proof {
                assert forall|j: int| 0 <= j < i + 1 implies #[trigger] r.deep_view()[j]
                    == self.key_seq()[j] by {
                    if j < i {
                        assert(r@[j] == before_v[j]);
                        assert(before_d[j] == before_v[j]@);
                        assert(before_d[j] == self.key_seq().subrange(0, i as int)[j]);
                    } else {
                        assert(r@[j] == k);
                        assert(self.key_seq()[j] == self.entries@[j].0@);
                    }
                }
            }
            i = i + 1;
            assert(r.deep_view() =~= self.key_seq().subrange(0, i as int));
        }
        assert(self.key_seq().subrange(0, i as int) =~= self.key_seq());
        r
    }

}

impl Table<String> {
    /// This table's entries overlaid by those of `top`, which win on a shared key.
    pub fn overlaid(&self, top: &Table<String>) -> (r: Table<String>)
        ensures
            r@ == self@.union_prefer_right(top@),
    {
        proof {
            use_type_invariant(self);
            use_type_invariant(top);
        }
        let mut copy: Vec<(String, String)> = Vec::new();
        let mut i: usize = 0;
        while i < self.entries.len()
            invariant
                i <= self.entries@.len(),
                keys_distinct(self.entries@),
                copy@.len() == i,
                forall|j: int| 0 <= j < i ==> #[trigger] copy@[j].0@ == self.entries@[j].0@
                    && copy@[j].1@ == self.entries@[j].1@,
            decreases self.entries@.len() - i,
        {
            let k = self.entries[i].0.clone();
            let v = self.entries[i].1.clone();
            copy.push((k, v));
            i = i + 1;
        }
        proof {
            lemma_map_of_same_views(copy@, self.entries@);
        }
        let mut r = Table { entries: copy };
        let mut i: usize = 0;
        while i < top.entries.len()
            invariant
                i <= top.entries@.len(),
                r@ == self@.union_prefer_right(map_of(top.entries@.subrange(0, i as int))),
            decreases top.entries@.len() - i,
        {
            let ghost pre = top.entries@.subrange(0, i as int);
            assert(top.entries@.subrange(0, i + 1).drop_last() =~= pre);
            let k = top.entries[i].0.clone();
            let v = top.entries[i].1.clone();
            r.insert(k, v);
            i = i + 1;
            assert(r@ =~= self@.union_prefer_right(map_of(top.entries@.subrange(0, i as int))));
        }
        assert(top.entries@.subrange(0, i as int) =~= top.entries@);
        r
    }
}

proof fn lemma_map_of_same_views(a: Seq<(String, String)>, b: Seq<(String, String)>)
    requires
        a.len() == b.len(),
        forall|j: int| 0 <= j < a.len() ==> #[trigger] a[j].0@ == b[j].0@ && a[j].1@ == b[j].1@,
        keys_distinct(b),
    ensures
        map_of(a) == map_of(b),
        keys_distinct(a),
    decreases a.len(),
{
    if a.len() > 0 {
        lemma_map_of_same_views(a.drop_last(), b.drop_last());
    }
    assert forall|i: int, j: int| 0 <= i < j < a.len() implies a[i].0@ != a[j].0@ by {
        assert(b[i].0@ != b[j].0@);
    }
}

} // verus!
