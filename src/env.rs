use vstd::prelude::*;
use crate::value::Value;

verus! {

pub open spec fn map_of(s: Seq<(String, Value)>) -> Map<Seq<char>, Value>
    decreases s.len(),
{
    if s.len() == 0 {
        Map::empty()
    } else {
        map_of(s.drop_last()).insert(s.last().0@, s.last().1)
    }
}

pub open spec fn keys_unique(s: Seq<(String, Value)>) -> bool {
    forall|i: int, j: int| 0 <= i < j < s.len() ==> s[i].0@ != s[j].0@
}

proof fn lemma_map_of(s: Seq<(String, Value)>)
    requires
        keys_unique(s),
    ensures
        forall|i: int| 0 <= i < s.len() ==> #[trigger] map_of(s).contains_key(s[i].0@) && map_of(s)[s[i].0@] == s[i].1,
        forall|k: Seq<char>| #[trigger] map_of(s).contains_key(k) ==> exists|i: int| 0 <= i < s.len() && s[i].0@ == k,
    decreases s.len(),
{
    if s.len() > 0 {
        let p = s.drop_last();
        assert(keys_unique(p));
        lemma_map_of(p);
        let last = s.len() - 1;
        assert(map_of(s) == map_of(p).insert(s[last].0@, s[last].1));
        assert forall|i: int| 0 <= i < s.len() implies #[trigger] map_of(s).contains_key(s[i].0@)
            && map_of(s)[s[i].0@] == s[i].1 by {
            if i < last {
                assert(s[i] == p[i]);
                assert(s[i].0@ != s[last].0@);
            }
        }
        assert forall|k: Seq<char>| #[trigger] map_of(s).contains_key(k) implies exists|i: int|
            0 <= i < s.len() && s[i].0@ == k by {
            if k != s[last].0@ {
                assert(map_of(p).contains_key(k));
                let i = choose|i: int| 0 <= i < p.len() && p[i].0@ == k;
                assert(s[i] == p[i]);
            } else {
                assert(s[last].0@ == k);
            }
        }
    }
}

/// The variables of one program run: each name bound to at most one value.
pub struct Environment {
    entries: Vec<(String, Value)>,
}

impl Environment {
    pub closed spec fn view(&self) -> Map<Seq<char>, Value> {
        map_of(self.entries@)
    }

    pub closed spec fn wf(&self) -> bool {
        keys_unique(self.entries@)
    }

    pub fn new() -> (r: Environment)
        ensures
            r.wf(),
            r@ == Map::<Seq<char>, Value>::empty(),
    {
        Environment { entries: Vec::new() }
    }

    fn find(&self, name: &String) -> (r: Option<usize>)
        ensures
            match r {
                Some(i) => i < self.entries@.len() && self.entries@[i as int].0@ == name@,
                None => forall|i: int| 0 <= i < self.entries@.len() ==> self.entries@[i].0@ != name@,
            },
    {
        let mut i: usize = 0;
        while i < self.entries.len()
            invariant
                i <= self.entries@.len(),
                forall|k: int| 0 <= k < i ==> self.entries@[k].0@ != name@,
            decreases self.entries@.len() - i,
        {
            if self.entries[i].0 == *name {
                return Some(i);
            }
            i = i + 1;
        }
        None
    }

    /// The value bound to `name`, if any.
    pub fn get(&self, name: &String) -> (r: Option<Value>)
        requires
            self.wf(),
        ensures
            match r {
                Some(v) => self@.contains_key(name@) && self@[name@] == v,
                None => !self@.contains_key(name@),
            },
    {
        proof {
            lemma_map_of(self.entries@);
        }
        match self.find(name) {
            Some(i) => {
                proof {
                    assert(map_of(self.entries@).contains_key(self.entries@[i as int].0@));
                }
                Some(self.entries[i].1.duplicate())
            },
            None => None,
        }
    }

    /// Binds `name` to `value`, replacing an earlier binding of that name.
    pub fn insert(&mut self, name: String, value: Value)
        requires
            old(self).wf(),
        ensures
            final(self).wf(),
            final(self)@ == old(self)@.insert(name@, value),
    {
        proof {
            lemma_map_of(self.entries@);
        }
        match self.find(&name) {
            Some(i) => {
                let ghost k = name@;
                let ghost v = value;
                self.entries.set(i, (name, value));
                proof {
                    let s = self.entries@;
                    let o = old(self).entries@;
                    assert(keys_unique(s));
                    lemma_map_of(s);
                    assert(s[i as int].0@ == k);
                    assert forall|key: Seq<char>| #[trigger] map_of(s).contains_key(key) <==> old(self)@.insert(k, v).contains_key(key) by {
                        if key != k {
                            if map_of(s).contains_key(key) {
                                let j = choose|j: int| 0 <= j < s.len() && s[j].0@ == key;
                                assert(j != i);
                                assert(o[j] == s[j]);
                                assert(old(self)@.contains_key(key));
                            }
                            if old(self)@.contains_key(key) {
                                let j = choose|j: int| 0 <= j < o.len() && o[j].0@ == key;
                                assert(j != i);
                                assert(o[j] == s[j]);
                                assert(map_of(s).contains_key(s[j].0@));
                            }
                        }
                    }
                    assert forall|key: Seq<char>| #[trigger] map_of(s).contains_key(key) implies map_of(s)[key] == old(self)@.insert(k, v)[key] by {
                        let j = choose|j: int| 0 <= j < s.len() && s[j].0@ == key;
                        if j != i {
                            assert(o[j] == s[j]);
                        }
                    }
                    assert(map_of(s) =~= old(self)@.insert(k, v));
                }
            },
            None => {
                self.entries.push((name, value));
                proof {
                    assert(self.entries@.drop_last() =~= old(self).entries@);
                }
            },
        }
    }
}

} // verus!
