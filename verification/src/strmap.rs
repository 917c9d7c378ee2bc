//! A small map from strings to strings, kept as a list of distinct keys.

use vstd::prelude::*;

verus! {

pub struct StrMap {
    entries: Vec<(String, String)>,
}

spec fn pairs_map(e: Seq<(String, String)>) -> Map<Seq<char>, Seq<char>>
    decreases e.len(),
{
    if e.len() == 0 {
        Map::empty()
    } else {
        pairs_map(e.drop_last()).insert(e.last().0@, e.last().1@)
    }
}

spec fn distinct_keys(e: Seq<(String, String)>) -> bool {
    forall|i: int, j: int| 0 <= i < j < e.len() ==> e[i].0@ != e[j].0@
}

proof fn lemma_pairs_map(e: Seq<(String, String)>)
    requires
        distinct_keys(e),
    ensures
        forall|s: Seq<char>|
            #![trigger pairs_map(e).dom().contains(s)]
            pairs_map(e).dom().contains(s) <==> exists|i: int| 0 <= i < e.len() && e[i].0@ == s,
        forall|i: int| 0 <= i < e.len() ==> pairs_map(e)[#[trigger] e[i].0@] == e[i].1@,
    decreases e.len(),
{
    if e.len() > 0 {
        let d = e.drop_last();
        let k = e.last().0@;
        assert forall|i: int, j: int| 0 <= i < j < d.len() implies d[i].0@ != d[j].0@ by {
            assert(d[i] == e[i] && d[j] == e[j]);
        }
        lemma_pairs_map(d);
        assert forall|s: Seq<char>| #![trigger pairs_map(e).dom().contains(s)]
            pairs_map(e).dom().contains(s) <==> exists|i: int| 0 <= i < e.len() && e[i].0@ == s by {
            if s == k {
                assert(e[e.len() - 1].0@ == s);
            } else {
                if pairs_map(d).dom().contains(s) {
                    let i = choose|i: int| 0 <= i < d.len() && d[i].0@ == s;
                    assert(e[i].0@ == s);
                }
                if exists|i: int| 0 <= i < e.len() && e[i].0@ == s {
                    let i = choose|i: int| 0 <= i < e.len() && e[i].0@ == s;
                    assert(i < d.len());
                    assert(d[i].0@ == s);
                }
            }
        }
        assert forall|i: int| 0 <= i < e.len() implies pairs_map(e)[#[trigger] e[i].0@]
            == e[i].1@ by {
            if i < d.len() {
                assert(d[i] == e[i]);
                assert(e[i].0@ != k);
            }
        }
    }
}

impl View for StrMap {
    type V = Map<Seq<char>, Seq<char>>;

    closed spec fn view(&self) -> Map<Seq<char>, Seq<char>> {
        pairs_map(self.entries@)
    }
}

impl StrMap {
    #[verifier::type_invariant]
    spec fn inv(self) -> bool {
        distinct_keys(self.entries@)
    }

    pub fn new() -> (m: StrMap)
        ensures
            m@ == Map::<Seq<char>, Seq<char>>::empty(),
    {
        StrMap { entries: Vec::new() }
    }

    fn index_of(&self, key: &String) -> (r: Option<usize>)
        ensures
            match r {
                Some(i) => i < self.entries@.len() && self.entries@[i as int].0@ == key@,
                None => forall|j: int| 0 <= j < self.entries@.len() ==> self.entries@[j].0@ != key@,
            },
    {
        let mut i: usize = 0;
        while i < self.entries.len()
            invariant
                i <= self.entries@.len(),
                forall|j: int| 0 <= j < i ==> self.entries@[j].0@ != key@,
            decreases self.entries@.len() - i,
        {
            if self.entries[i].0 == *key {
                return Some(i);
            }
            i += 1;
        }
        None
    }

    pub fn get(&self, key: &String) -> (r: Option<String>)
        ensures
            match r {
                Some(v) => self@.dom().contains(key@) && self@[key@] == v@,
                None => !self@.dom().contains(key@),
            },
    {
        proof {
            use_type_invariant(self);
            lemma_pairs_map(self.entries@);
        }
        match self.index_of(key) {
            Some(i) => Some(self.entries[i].1.clone()),
            None => None,
        }
    }

    pub fn insert(&mut self, key: String, value: String)
        ensures
            final(self)@ == old(self)@.insert(key@, value@),
    {
        proof {
            use_type_invariant(&*self);
            lemma_pairs_map(self.entries@);
        }
        let ghost old_entries = self.entries@;
        let found = self.index_of(&key);
        let mut entries = Vec::new();
        std::mem::swap(&mut entries, &mut self.entries);
        match found {
            Some(i) => {
                entries.set(i, (key, value));
                proof {
                    assert forall|a: int, b: int| 0 <= a < b < entries@.len() implies entries@[a].0@
                        != entries@[b].0@ by {
                        assert(entries@[a].0@ == old_entries[a].0@);
                        assert(entries@[b].0@ == old_entries[b].0@);
                    }
                    lemma_pairs_map(entries@);
                    let k = old_entries[i as int].0@;
                    assert(entries@[i as int].0@ == k);
                    assert(pairs_map(old_entries).dom().contains(k));
                    assert forall|s: Seq<char>| #![trigger pairs_map(entries@).dom().contains(s)]
                        pairs_map(entries@).dom().contains(s) implies pairs_map(old_entries).dom().contains(s) by {
                        let a = choose|a: int| 0 <= a < entries@.len() && entries@[a].0@ == s;
                        assert(old_entries[a].0@ == s);
                    }
                    assert forall|s: Seq<char>| #![trigger pairs_map(old_entries).dom().contains(s)]
                        pairs_map(old_entries).dom().contains(s) implies pairs_map(entries@).dom().contains(s) by {
                        let a = choose|a: int| 0 <= a < old_entries.len() && old_entries[a].0@ == s;
                        assert(entries@[a].0@ == s);
                    }
                    assert forall|s: Seq<char>| #![trigger pairs_map(entries@)[s]]
                        pairs_map(entries@).dom().contains(s) && s != k implies pairs_map(entries@)[s] == pairs_map(old_entries)[s] by {
                        let a = choose|a: int| 0 <= a < entries@.len() && entries@[a].0@ == s;
                        assert(a != i);
                        assert(entries@[a] == old_entries[a]);
                    }
                    assert(pairs_map(entries@)[entries@[i as int].0@] == entries@[i as int].1@);
                    assert(pairs_map(entries@) =~= pairs_map(old_entries).insert(k, entries@[i as int].1@));
                }
            },
            None => {
                entries.push((key, value));
                proof {
                    assert(entries@.drop_last() == old_entries);
                    assert forall|a: int, b: int| 0 <= a < b < entries@.len() implies entries@[a].0@
                        != entries@[b].0@ by {
                        if b < old_entries.len() {
                            assert(entries@[a] == old_entries[a] && entries@[b] == old_entries[b]);
                        } else {
                            assert(entries@[a] == old_entries[a]);
                        }
                    }
                }
            },
        }
        *self = StrMap { entries };
    }
}

} // verus!
