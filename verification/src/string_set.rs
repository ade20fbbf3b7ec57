//! A set of strings with a sorted listing.

use vstd::prelude::*;
use crate::order::strictly_ascending;
use crate::table::{views_of, Table};

verus! {

/// A finite set of strings.
///
/// The strings are held in ascending byte order, each once, so that the
/// listing of a set is the same however the set was built.
#[derive(Debug)]
pub struct StringSet {
    table: Table<()>,
}

impl View for StringSet {
    type V = Set<Seq<char>>;

    open spec fn view(&self) -> Set<Seq<char>> {
        self.listing().to_set()
    }
}

/// The elements of a sequence are its last one and those before it.
pub proof fn lemma_to_set_drop_last(s: Seq<Seq<char>>)
    requires
        s.len() > 0,
    ensures
        s.to_set() == s.drop_last().to_set().insert(s.last()),
{
    let t = s.drop_last();
    assert forall|x: Seq<char>| s.to_set().contains(x) == t.to_set().insert(s.last()).contains(
        x,
    ) by {
        if s.to_set().contains(x) {
            let i = choose|i: int| 0 <= i < s.len() && s[i] == x;
            if i < s.len() - 1 {
                assert(t[i] == x);
                assert(t.contains(x));
            }
        }
        if t.to_set().contains(x) {
            let i = choose|i: int| 0 <= i < t.len() && t[i] == x;
            assert(s[i] == x);
            assert(s.contains(x));
        }
        if x == s.last() {
            assert(s[s.len() - 1] == x);
            assert(s.contains(x));
        }
    }
    assert(s.to_set() =~= t.to_set().insert(s.last()));
}

impl StringSet {
    /// The strings of the set in ascending order.
    pub closed spec fn listing(&self) -> Seq<Seq<char>> {
        self.table.listing()
    }

    /// The strings of the set are the keys of its table.
    proof fn lemma_keys(&self)
        ensures
            self@ == self.table@.dom(),
    {
        assert(self.table@.dom() =~= self.listing().to_set());
    }

    /// The empty set.
    pub fn new() -> (r: Self)
        ensures
            r@ == Set::<Seq<char>>::empty(),
    {
        let r = StringSet { table: Table::new() };
        assert(r@ =~= Set::<Seq<char>>::empty());
        r
    }

    /// The number of strings in the set.
    pub fn len(&self) -> (n: usize)
        ensures
            n == self@.len(),
            n == self.listing().len(),
    {
        proof {
            self.lemma_keys();
        }
        self.table.len()
    }

    /// Whether the set holds no string.
    pub fn is_empty(&self) -> (b: bool)
        ensures
            b == (self@ == Set::<Seq<char>>::empty()),
    {
        let n = self.table.len();
        proof {
            if n > 0 {
                assert(self.listing().contains(self.listing()[0]));
                assert(self@.contains(self.listing()[0]));
            } else {
                assert(self@ =~= Set::<Seq<char>>::empty());
            }
        }
        n == 0
    }

    /// Whether `key` is in the set.
    pub fn contains(&self, key: &str) -> (b: bool)
        ensures
            b == self@.contains(key@),
    {
        proof {
            self.lemma_keys();
        }
        self.table.contains_key(key)
    }

    /// Adds `key` to the set. Returns whether the set did not hold it before.
    pub fn insert(&mut self, key: String) -> (added: bool)
        ensures
            final(self)@ == old(self)@.insert(key@),
            added == !old(self)@.contains(key@),
    {
        proof {
            self.lemma_keys();
        }
        let added = self.table.insert(key, ());
        proof {
            self.lemma_keys();
            assert(self@ =~= old(self)@.insert(key@));
        }
        added
    }

    /// Adds every string of `other` to the set.
    pub fn extend(&mut self, other: StringSet)
        ensures
            final(self)@ == old(self)@.union(other@),
    {
        proof {
            self.lemma_keys();
            other.lemma_keys();
        }
        let StringSet { table } = other;
        self.table.extend(table);
        proof {
            self.lemma_keys();
            assert(self@ =~= old(self)@.union(other@));
        }
    }

    /// The set of the strings of `list`.
    pub fn from_vec(list: Vec<String>) -> (r: Self)
        ensures
            r@ == views_of(list@).to_set(),
    {
        let mut r = StringSet::new();
        let mut rest: Vec<String> = list;
        while rest.len() > 0
            invariant
                r@.union(views_of(rest@).to_set()) == views_of(list@).to_set(),
            decreases rest.len(),
        {
            let ghost before = views_of(rest@);
            let key = rest.pop().unwrap();
            proof {
                lemma_to_set_drop_last(before);
                assert(views_of(rest@) =~= before.drop_last());
            }
            r.insert(key);
            assert(r@.union(views_of(rest@).to_set()) =~= views_of(list@).to_set());
        }
        proof {
            assert(views_of(rest@).to_set() =~= Set::<Seq<char>>::empty());
            assert(r@ =~= views_of(list@).to_set());
        }
        r
    }

    /// The strings of the set in ascending order.
    pub fn as_sorted(&self) -> (v: &Vec<String>)
        ensures
            views_of(v@) == self.listing(),
            views_of(v@).to_set() == self@,
            strictly_ascending(views_of(v@)),
    {
        self.table.keys()
    }

    /// The strings of the set as a sorted vector.
    pub fn into_sorted(self) -> (v: Vec<String>)
        ensures
            views_of(v@) == self.listing(),
            views_of(v@).to_set() == self@,
            strictly_ascending(views_of(v@)),
    {
        let StringSet { table } = self;
        let (keys, _) = table.into_columns();
        keys
    }
}

} // verus!
