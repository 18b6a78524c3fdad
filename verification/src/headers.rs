//! An ordered header table: names are unique, a repeated name overwrites
//! the value it had, and the entries keep the order of their first insertion.

use vstd::prelude::*;

verus! {

/// A header name with its value, as characters.
pub type Pair = (Seq<char>, Seq<char>);

/// The mapping that a list of pairs describes: each name maps to the value
/// of the last pair that carries it.
pub open spec fn pairs_map(p: Seq<Pair>) -> Map<Seq<char>, Seq<char>>
    decreases p.len(),
{
    if p.len() == 0 {
        Map::empty()
    } else {
        pairs_map(p.drop_last()).insert(p.last().0, p.last().1)
    }
}

/// No name stands in two pairs.
pub open spec fn distinct_names(p: Seq<Pair>) -> bool {
    forall|i: int, j: int| 0 <= i < j < p.len() ==> (#[trigger] p[i]).0 != (#[trigger] p[j]).0
}

/// The index of the pair that carries `name`, if there is one.
pub open spec fn has_name_at(p: Seq<Pair>, name: Seq<char>, i: int) -> bool {
    0 <= i < p.len() && p[i].0 == name
}

/// A name that no pair carries is no key of the mapping.
pub proof fn lemma_absent(p: Seq<Pair>, name: Seq<char>)
    requires
        forall|i: int| !has_name_at(p, name, i),
    ensures
        !pairs_map(p).contains_key(name),
    decreases p.len(),
{
    if p.len() > 0 {
        assert(!has_name_at(p, name, p.len() - 1));
        assert forall|i: int| !has_name_at(p.drop_last(), name, i) by {
            assert(!has_name_at(p, name, i));
        }
        lemma_absent(p.drop_last(), name);
    }
}

/// With distinct names, each pair's name maps to that pair's value.
pub proof fn lemma_present(p: Seq<Pair>, i: int)
    requires
        distinct_names(p),
        0 <= i < p.len(),
    ensures
        pairs_map(p).contains_key(p[i].0),
        pairs_map(p)[p[i].0] == p[i].1,
    decreases p.len(),
{
    if i < p.len() - 1 {
        assert(p.drop_last()[i] == p[i]);
        assert(p[i].0 != p[p.len() - 1].0);
        lemma_present(p.drop_last(), i);
    }
}

/// Appending a pair inserts it into the mapping.
pub proof fn lemma_push(p: Seq<Pair>, name: Seq<char>, value: Seq<char>)
    ensures
        pairs_map(p.push((name, value))) == pairs_map(p).insert(name, value),
{
    assert(p.push((name, value)).drop_last() =~= p);
}

/// With distinct names, replacing the value of the pair that carries a
/// name is inserting that name into the mapping.
#[verifier::rlimit(40)]
pub proof fn lemma_update(p: Seq<Pair>, i: int, value: Seq<char>)
    requires
        distinct_names(p),
        0 <= i < p.len(),
    ensures
        distinct_names(p.update(i, (p[i].0, value))),
        pairs_map(p.update(i, (p[i].0, value))) == pairs_map(p).insert(p[i].0, value),
    decreases p.len(),
{
    let name = p[i].0;
    let q = p.update(i, (name, value));
    assert(distinct_names(q)) by {
        assert forall|a: int, b: int| 0 <= a < b < q.len() implies (#[trigger] q[a]).0 != (
        #[trigger] q[b]).0 by {
            assert(q[a].0 == p[a].0);
            assert(q[b].0 == p[b].0);
        }
    }
    let last = p.len() - 1;
    if i == last {
        assert(q.drop_last() =~= p.drop_last());
        assert(pairs_map(q) =~= pairs_map(p).insert(name, value));
    } else {
        assert(q.drop_last() =~= p.drop_last().update(i, (name, value)));
        assert(p.drop_last()[i] == p[i]);
        lemma_update(p.drop_last(), i, value);
        assert(p[i].0 != p[last].0);
        assert(q.last() == p.last());
        assert(pairs_map(q) =~= pairs_map(p).insert(name, value));
    }
}

/// A table of headers.
pub struct Headers {
    entries: Vec<(String, String)>,
}

impl View for Headers {
    type V = Map<Seq<char>, Seq<char>>;

    /// The mapping from header names to values.
    open spec fn view(&self) -> Map<Seq<char>, Seq<char>> {
        pairs_map(self.pairs())
    }
}

impl Headers {
    /// The entries in the order in which their names were first inserted.
    pub closed spec fn pairs(&self) -> Seq<Pair> {
        self.entries@.map_values(|e: (String, String)| (e.0@, e.1@))
    }

    #[verifier::type_invariant]
    spec fn names_are_distinct(&self) -> bool {
        distinct_names(self.pairs())
    }

    /// An empty table.
    pub fn new() -> (r: Headers)
        ensures
            r.pairs() == Seq::<Pair>::empty(),
            r@ == Map::<Seq<char>, Seq<char>>::empty(),
    {
        let r = Headers { entries: Vec::new() };
        proof {
            assert(r.pairs() =~= Seq::<Pair>::empty());
        }
        r
    }

    /// The number of entries.
    pub fn len(&self) -> (n: usize)
        ensures
            n == self.pairs().len(),
            distinct_names(self.pairs()),
    {
        proof {
            use_type_invariant(self);
        }
        self.entries.len()
    }

    /// The name of the entry at `i`.
    pub fn name_at(&self, i: usize) -> (r: &String)
        requires
            i < self.pairs().len(),
        ensures
            r@ == self.pairs()[i as int].0,
    {
        &self.entries[i].0
    }

    /// The value of the entry at `i`.
    pub fn value_at(&self, i: usize) -> (r: &String)
        requires
            i < self.pairs().len(),
        ensures
            r@ == self.pairs()[i as int].1,
    {
        &self.entries[i].1
    }

    /// The index of the entry that carries `name`.
    pub fn position(&self, name: &str) -> (r: Option<usize>)
        ensures
            match r {
                Some(i) => has_name_at(self.pairs(), name@, i as int),
                None => forall|i: int| !has_name_at(self.pairs(), name@, i),
            },
    {
        let key: String = name.to_owned();
        let mut i: usize = 0;
        while i < self.entries.len()
            invariant
                i <= self.entries@.len(),
                key@ == name@,
                forall|j: int| 0 <= j < i ==> !has_name_at(self.pairs(), name@, j),
            decreases self.entries@.len() - i,
        {
            if self.entries[i].0 == key {
                return Some(i);
            }
            i = i + 1;
        }
        None
    }

    /// The value that `name` maps to.
    pub fn get(&self, name: &str) -> (r: Option<&String>)
        ensures
            match r {
                Some(v) => self@.contains_key(name@) && v@ == self@[name@],
                None => !self@.contains_key(name@),
            },
    {
        proof {
            use_type_invariant(self);
        }
        match self.position(name) {
            Some(i) => {
                proof {
                    lemma_present(self.pairs(), i as int);
                }
                Some(&self.entries[i].1)
            },
            None => {
                proof {
                    lemma_absent(self.pairs(), name@);
                }
                None
            },
        }
    }

    /// Maps `name` to `value`. A name that the table holds keeps its place
    /// and gets the new value; a new name goes to the end.
    #[verifier::rlimit(40)]
    pub fn insert(&mut self, name: String, value: String)
        ensures
            final(self)@ == old(self)@.insert(name@, value@),
            match find_name(old(self).pairs(), name@) {
                Some(i) => final(self).pairs() == old(self).pairs().update(i, (name@, value@)),
                None => final(self).pairs() == old(self).pairs().push((name@, value@)),
            },
    {
        proof {
            use_type_invariant(&*self);
        }
        let ghost p = self.pairs();
        let at = self.position(name.as_str());
        let mut taken = Headers::new();
        std::mem::swap(self, &mut taken);
        let mut entries = taken.entries;
        match at {
            Some(i) => {
                proof {
                    lemma_update(p, i as int, value@);
                    lemma_find_name(p, name@, i as int);
                }
                entries.set(i, (name, value));
                proof {
                    assert(entries@.map_values(|e: (String, String)| (e.0@, e.1@)) =~= p.update(
                        i as int,
                        (name@, value@),
                    ));
                }
                *self = Headers { entries };
            },
            None => {
                proof {
                    lemma_push(p, name@, value@);
                }
                entries.push((name, value));
                let ghost q = entries@.map_values(|e: (String, String)| (e.0@, e.1@));
                proof {
                    assert(q =~= p.push((name@, value@)));
                    assert forall|a: int, b: int| 0 <= a < b < q.len() implies (#[trigger] q[a]).0
                        != (#[trigger] q[b]).0 by {
                        if b == p.len() {
                            assert(!has_name_at(p, name@, a));
                        } else {
                            assert(p[a].0 != p[b].0);
                        }
                    }
                }
                *self = Headers { entries };
            },
        }
    }
}

/// The index of the first pair that carries `name`.
pub open spec fn find_name(p: Seq<Pair>, name: Seq<char>) -> Option<int> {
    if exists|i: int| has_name_at(p, name, i) {
        Some(choose|i: int| has_name_at(p, name, i))
    } else {
        None
    }
}

/// With distinct names, the pair that carries a name is the one that
/// `find_name` gives.
pub proof fn lemma_find_name(p: Seq<Pair>, name: Seq<char>, i: int)
    requires
        distinct_names(p),
        has_name_at(p, name, i),
    ensures
        find_name(p, name) == Some(i),
{
    let c = choose|c: int| has_name_at(p, name, c);
    if c < i {
        assert(p[c].0 != p[i].0);
    }
    if i < c {
        assert(p[i].0 != p[c].0);
    }
}

} // verus!
