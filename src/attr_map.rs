//! Attribute maps: attribute names to values, each name at most once.
use vstd::prelude::*;

verus! {

/// The map that a sequence of (name, value) pairs denotes when they are
/// inserted in order: a later pair for a name replaces an earlier one.
pub open spec fn map_of(pairs: Seq<(Seq<char>, Seq<char>)>) -> Map<Seq<char>, Seq<char>>
    decreases pairs.len(),
{
    if pairs.len() == 0 {
        Map::empty()
    } else {
        map_of(pairs.drop_last()).insert(pairs.last().0, pairs.last().1)
    }
}

/// A name occurs in `map_of(pairs)` exactly when some pair carries it.
pub proof fn lemma_map_of_domain(pairs: Seq<(Seq<char>, Seq<char>)>, k: Seq<char>)
    ensures
        map_of(pairs).contains_key(k) <==> exists|i: int| 0 <= i < pairs.len() && #[trigger] pairs[i].0 == k,
    decreases pairs.len(),
{
    if pairs.len() > 0 {
        let init = pairs.drop_last();
        lemma_map_of_domain(init, k);
        if map_of(pairs).contains_key(k) && pairs.last().0 != k {
            let i = choose|i: int| 0 <= i < init.len() && #[trigger] init[i].0 == k;
            assert(pairs[i].0 == k);
        }
        if exists|i: int| 0 <= i < pairs.len() && #[trigger] pairs[i].0 == k {
            let i = choose|i: int| 0 <= i < pairs.len() && #[trigger] pairs[i].0 == k;
            if i < pairs.len() - 1 {
                assert(init[i].0 == k);
            }
        }
    }
}

/// The value of a name is that of the last pair carrying it.
pub proof fn lemma_map_of_last(pairs: Seq<(Seq<char>, Seq<char>)>, j: int)
    requires
        0 <= j < pairs.len(),
        forall|i: int| j < i < pairs.len() ==> #[trigger] pairs[i].0 != pairs[j].0,
    ensures
        map_of(pairs).contains_key(pairs[j].0),
        map_of(pairs)[pairs[j].0] == pairs[j].1,
    decreases pairs.len(),
{
    if j < pairs.len() - 1 {
        let init = pairs.drop_last();
        assert(pairs.last().0 != pairs[j].0);
        assert forall|i: int| j < i < init.len() implies #[trigger] init[i].0 != init[j].0 by {
            assert(pairs[i].0 != pairs[j].0);
        }
        lemma_map_of_last(init, j);
    }
}

/// Replacing the value of the last pair that carries a name updates the map.
proof fn lemma_map_of_update(pairs: Seq<(Seq<char>, Seq<char>)>, j: int, v: Seq<char>)
    requires
        0 <= j < pairs.len(),
        forall|i: int| j < i < pairs.len() ==> #[trigger] pairs[i].0 != pairs[j].0,
    ensures
        map_of(pairs.update(j, (pairs[j].0, v))) == map_of(pairs).insert(pairs[j].0, v),
    decreases pairs.len(),
{
    let k = pairs[j].0;
    let upd = pairs.update(j, (k, v));
    let init = pairs.drop_last();
    if j == pairs.len() - 1 {
        assert(upd.drop_last() =~= init);
        assert(map_of(upd) =~= map_of(pairs).insert(k, v));
    } else {
        assert(upd.drop_last() =~= init.update(j, (k, v)));
        assert forall|i: int| j < i < init.len() implies #[trigger] init[i].0 != init[j].0 by {
            assert(pairs[i].0 != pairs[j].0);
        }
        lemma_map_of_update(init, j, v);
        assert(pairs.last().0 != k);
        assert(map_of(upd) =~= map_of(pairs).insert(k, v));
    }
}

/// Attributes of an element, from names to values.
#[derive(Debug)]
pub struct AttrMap {
    entries: Vec<(String, String)>,
}

impl AttrMap {
    /// The entries as (name, value) character sequences.
    pub closed spec fn pairs(&self) -> Seq<(Seq<char>, Seq<char>)> {
        self.entries@.map_values(|e: (String, String)| (e.0@, e.1@))
    }

    pub closed spec fn view(&self) -> Map<Seq<char>, Seq<char>> {
        map_of(self.pairs())
    }

    /// An empty map.
    pub fn new() -> (r: AttrMap)
        ensures
            r@ == Map::<Seq<char>, Seq<char>>::empty(),
    {
        let r = AttrMap { entries: Vec::new() };
        assert(r.pairs() =~= Seq::<(Seq<char>, Seq<char>)>::empty());
        r
    }

    /// Index of the last entry named `key`, if any.
    fn find(&self, key: &String) -> (r: Option<usize>)
        ensures
            match r {
                Some(i) => i < self.pairs().len() && self.pairs()[i as int].0 == key@ && forall|j: int|
                    i < j < self.pairs().len() ==> #[trigger] self.pairs()[j].0 != key@,
                None => !self@.contains_key(key@),
            },
    {
        let mut i: usize = self.entries.len();
        while i > 0
            invariant
                i <= self.entries.len(),
                forall|j: int| i <= j < self.pairs().len() ==> #[trigger] self.pairs()[j].0 != key@,
            decreases i,
        {
            i = i - 1;
            if self.entries[i].0 == *key {
                return Some(i);
            }
        }
        proof {
            lemma_map_of_domain(self.pairs(), key@);
        }
        None
    }

    /// Sets `key` to `value`; a value already held for `key` is replaced.
    pub fn insert(&mut self, key: String, value: String)
        ensures
            final(self)@ == old(self)@.insert(key@, value@),
    {
        match self.find(&key) {
            Some(i) => {
                proof {
                    lemma_map_of_update(self.pairs(), i as int, value@);
                }
                let ghost before = self.pairs();
                self.entries.set(i, (key, value));
                assert(self.pairs() =~= before.update(i as int, (before[i as int].0, value@)));
            },
            None => {
                let ghost before = self.pairs();
                self.entries.push((key, value));
                assert(self.pairs().drop_last() =~= before);
            },
        }
    }

    /// The value held for `key`, if any.
    pub fn get(&self, key: &str) -> (r: Option<&String>)
        ensures
            match r {
                Some(v) => self@.contains_key(key@) && self@[key@] == v@,
                None => !self@.contains_key(key@),
            },
    {
        let k = key.to_owned();
        match self.find(&k) {
            Some(i) => {
                proof {
                    lemma_map_of_last(self.pairs(), i as int);
                }
                Some(&self.entries[i].1)
            },
            None => None,
        }
    }

    /// True when no attribute is held.
    pub fn is_empty(&self) -> (r: bool)
        ensures
            r == (self@.dom() == Set::<Seq<char>>::empty()),
    {
        proof {
            if self.pairs().len() > 0 {
                assert(self@.contains_key(self.pairs().last().0));
            } else {
                assert(self@ =~= Map::<Seq<char>, Seq<char>>::empty());
            }
        }
        self.entries.len() == 0
    }
}

} // verus!
