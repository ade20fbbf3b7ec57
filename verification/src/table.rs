//! A table of values keyed by strings, kept as two columns sorted by key.
//!
//! The sets and maps of a scan are built on it: a key is found by bisection,
//! and two tables are merged in one pass over both.

use vstd::prelude::*;
use crate::order::{compare, str_before, strictly_ascending, Rank};
use crate::order::{lemma_ascending_no_duplicates, lemma_str_before_irreflexive, lemma_str_before_transitive};

verus! {

/// The views of a sequence of strings, in the same order.
pub open spec fn views_of(items: Seq<String>) -> Seq<Seq<char>> {
    items.map_values(|s: String| s@)
}

/// The map that sends `keys[i]` to `values[i]`.
pub open spec fn table<V>(keys: Seq<Seq<char>>, values: Seq<V>) -> Map<Seq<char>, V> {
    Map::new(|k: Seq<char>| keys.contains(k), |k: Seq<char>| values[keys.index_of(k)])
}

/// `key` stands at `pos` of the ascending sequence `s`, or would stand there
/// if it were inserted: all that is left of `pos` comes before `key`, and
/// `key` comes before all that is right of it.
spec fn is_slot(s: Seq<Seq<char>>, key: Seq<char>, pos: int, found: bool) -> bool {
    &&& 0 <= pos <= s.len()
    &&& forall|i: int| 0 <= i < pos ==> str_before(#[trigger] s[i], key)
    &&& found ==> pos < s.len() && s[pos] == key
    &&& forall|i: int|
        (if found {
            pos < i
        } else {
            pos <= i
        }) && i < s.len() ==> str_before(key, #[trigger] s[i])
}

/// Every element comes strictly after all later ones.
spec fn strictly_descending(s: Seq<Seq<char>>) -> bool {
    forall|i: int, j: int| 0 <= i < j < s.len() ==> str_before(#[trigger] s[j], #[trigger] s[i])
}

/// Every element of `a` comes before every element of `b`.
spec fn all_before(a: Seq<Seq<char>>, b: Seq<Seq<char>>) -> bool {
    forall|i: int, j: int|
        0 <= i < a.len() && 0 <= j < b.len() ==> str_before(#[trigger] a[i], #[trigger] b[j])
}

/// A slot that does not hold the key shows that the key is absent.
proof fn lemma_slot_decides_membership(s: Seq<Seq<char>>, key: Seq<char>, pos: int, found: bool)
    requires
        is_slot(s, key, pos, found),
    ensures
        s.contains(key) == found,
{
    if !found && s.contains(key) {
        let i = choose|i: int| 0 <= i < s.len() && s[i] == key;
        lemma_str_before_irreflexive(key);
    }
}

/// Inserting a key at its slot keeps the sequence ascending.
proof fn lemma_insert_at_slot(s: Seq<Seq<char>>, key: Seq<char>, pos: int)
    requires
        strictly_ascending(s),
        is_slot(s, key, pos, false),
    ensures
        strictly_ascending(s.insert(pos, key)),
{
    let t = s.insert(pos, key);
    assert forall|i: int, j: int| 0 <= i < j < t.len() implies str_before(
        #[trigger] t[i],
        #[trigger] t[j],
    ) by {
        if i < pos && j > pos {
            assert(str_before(s[i], s[j - 1]));
        } else if i > pos {
            assert(str_before(s[i - 1], s[j - 1]));
        }
    }
}

/// A descending sequence holds no string twice.
proof fn lemma_descending_no_duplicates(s: Seq<Seq<char>>)
    requires
        strictly_descending(s),
    ensures
        s.no_duplicates(),
{
    assert forall|i: int, j: int| 0 <= i < s.len() && 0 <= j < s.len() && i != j implies s[i]
        != s[j] by {
        lemma_str_before_irreflexive(s[i]);
        if i < j {
            assert(str_before(s[j], s[i]));
        } else {
            assert(str_before(s[i], s[j]));
        }
    }
}

/// In a table without repeated keys each key has the value at its index.
proof fn lemma_table_at<V>(keys: Seq<Seq<char>>, values: Seq<V>, i: int)
    requires
        keys.no_duplicates(),
        0 <= i < keys.len(),
    ensures
        table(keys, values).dom().contains(keys[i]),
        table(keys, values)[keys[i]] == values[i],
{
    assert(keys.contains(keys[i]));
    let j = keys.index_of(keys[i]);
    assert(0 <= j < keys.len() && keys[j] == keys[i]);
}

/// Putting a new key and its value at the same index of both columns is
/// insertion into the map.
proof fn lemma_table_insert<V>(
    keys: Seq<Seq<char>>,
    values: Seq<V>,
    pos: int,
    key: Seq<char>,
    value: V,
)
    requires
        keys.len() == values.len(),
        keys.no_duplicates(),
        keys.insert(pos, key).no_duplicates(),
        0 <= pos <= keys.len(),
        !keys.contains(key),
    ensures
        table(keys.insert(pos, key), values.insert(pos, value)) == table(keys, values).insert(
            key,
            value,
        ),
{
    let k2 = keys.insert(pos, key);
    let v2 = values.insert(pos, value);
    let a = table(k2, v2);
    let b = table(keys, values).insert(key, value);
    assert forall|x: Seq<char>| a.dom().contains(x) == b.dom().contains(x) by {
        if k2.contains(x) {
            let i = choose|i: int| 0 <= i < k2.len() && k2[i] == x;
            if i < pos {
                assert(keys[i] == x);
            } else if i > pos {
                assert(keys[i - 1] == x);
            }
        }
        if keys.contains(x) {
            let i = choose|i: int| 0 <= i < keys.len() && keys[i] == x;
            if i < pos {
                assert(k2[i] == x);
            } else {
                assert(k2[i + 1] == x);
            }
        }
        if x == key {
            assert(k2[pos] == x);
        }
    }
    assert forall|x: Seq<char>| a.dom().contains(x) implies a[x] == b[x] by {
        let i = choose|i: int| 0 <= i < k2.len() && k2[i] == x;
        lemma_table_at(k2, v2, i);
        if i < pos {
            lemma_table_at(keys, values, i);
        } else if i > pos {
            lemma_table_at(keys, values, i - 1);
        }
    }
    assert(a =~= b);
}

/// Replacing the value at the index of a key is insertion into the map.
proof fn lemma_table_update<V>(keys: Seq<Seq<char>>, values: Seq<V>, pos: int, value: V)
    requires
        keys.len() == values.len(),
        keys.no_duplicates(),
        0 <= pos < keys.len(),
    ensures
        table(keys, values.update(pos, value)) == table(keys, values).insert(keys[pos], value),
{
    let v2 = values.update(pos, value);
    let a = table(keys, v2);
    let b = table(keys, values).insert(keys[pos], value);
    assert(keys.contains(keys[pos]));
    assert forall|x: Seq<char>| a.dom().contains(x) implies a[x] == b[x] by {
        let i = choose|i: int| 0 <= i < keys.len() && keys[i] == x;
        lemma_table_at(keys, v2, i);
        lemma_table_at(keys, values, i);
    }
    assert(a =~= b);
}

/// A table is the table of all but its last record, with that record
/// inserted.
proof fn lemma_table_last<V>(keys: Seq<Seq<char>>, values: Seq<V>)
    requires
        keys.len() == values.len(),
        keys.no_duplicates(),
        keys.len() > 0,
    ensures
        !keys.drop_last().contains(keys.last()),
        table(keys, values) == table(keys.drop_last(), values.drop_last()).insert(
            keys.last(),
            values.last(),
        ),
{
    let k0 = keys.drop_last();
    let v0 = values.drop_last();
    if k0.contains(keys.last()) {
        let i = choose|i: int| 0 <= i < k0.len() && k0[i] == keys.last();
        assert(keys[i] == keys[keys.len() - 1]);
    }
    assert(k0.no_duplicates());
    assert(k0.insert(k0.len() as int, keys.last()) =~= keys);
    assert(v0.insert(v0.len() as int, values.last()) =~= values);
    lemma_table_insert(k0, v0, k0.len() as int, keys.last(), values.last());
}

/// The table without records.
proof fn lemma_table_empty<V>(keys: Seq<Seq<char>>, values: Seq<V>)
    requires
        keys.len() == 0,
    ensures
        table(keys, values) == Map::<Seq<char>, V>::empty(),
{
    assert(table(keys, values) =~= Map::<Seq<char>, V>::empty());
}

/// The state of a merge of two tables. What is left of the two tables are
/// the columns `lk`, `lv` and `rk`, `rv`; what was taken from their ends
/// stands in `dk`, `dv`, largest key first. Together they still make up
/// `target`.
spec fn merging<V>(
    target: Map<Seq<char>, V>,
    lk: Seq<Seq<char>>,
    lv: Seq<V>,
    rk: Seq<Seq<char>>,
    rv: Seq<V>,
    dk: Seq<Seq<char>>,
    dv: Seq<V>,
) -> bool {
    &&& lk.len() == lv.len()
    &&& rk.len() == rv.len()
    &&& dk.len() == dv.len()
    &&& strictly_ascending(lk)
    &&& strictly_ascending(rk)
    &&& strictly_descending(dk)
    &&& all_before(lk, dk)
    &&& all_before(rk, dk)
    &&& target == table(lk, lv).union_prefer_right(table(rk, rv)).union_prefer_right(
        table(dk, dv),
    )
}

/// The largest key left stands at the end of the right table only: its
/// record is taken.
proof fn lemma_take_right<V>(
    target: Map<Seq<char>, V>,
    lk: Seq<Seq<char>>,
    lv: Seq<V>,
    rk: Seq<Seq<char>>,
    rv: Seq<V>,
    dk: Seq<Seq<char>>,
    dv: Seq<V>,
)
    requires
        merging(target, lk, lv, rk, rv, dk, dv),
        rk.len() > 0,
        lk.len() > 0 ==> str_before(lk.last(), rk.last()),
    ensures
        merging(
            target,
            lk,
            lv,
            rk.drop_last(),
            rv.drop_last(),
            dk.push(rk.last()),
            dv.push(rv.last()),
        ),
{
    let k = rk.last();
    let rk0 = rk.drop_last();
    let dk1 = dk.push(k);
    lemma_ascending_no_duplicates(rk);
    lemma_descending_no_duplicates(dk);
    lemma_table_last(rk, rv);
    assert forall|i: int, j: int| 0 <= i < j < dk1.len() implies str_before(
        #[trigger] dk1[j],
        #[trigger] dk1[i],
    ) by {
        if j == dk.len() {
            assert(str_before(rk[rk.len() - 1], dk[i]));
        }
    }
    assert forall|i: int, j: int| 0 <= i < lk.len() && 0 <= j < dk1.len() implies str_before(
        #[trigger] lk[i],
        #[trigger] dk1[j],
    ) by {
        if j == dk.len() {
            if i < lk.len() - 1 {
                assert(str_before(lk[i], lk[lk.len() - 1]));
                lemma_str_before_transitive(lk[i], lk.last(), k);
            }
        }
    }
    assert forall|i: int, j: int| 0 <= i < rk0.len() && 0 <= j < dk1.len() implies str_before(
        #[trigger] rk0[i],
        #[trigger] dk1[j],
    ) by {
        assert(rk0[i] == rk[i]);
        if j == dk.len() {
            assert(str_before(rk[i], rk[rk.len() - 1]));
        }
    }
    assert(!dk.contains(k)) by {
        if dk.contains(k) {
            let j = choose|j: int| 0 <= j < dk.len() && dk[j] == k;
            assert(str_before(rk[rk.len() - 1], dk[j]));
            lemma_str_before_irreflexive(k);
        }
    }
    lemma_descending_no_duplicates(dk1);
    assert(dk.insert(dk.len() as int, k) =~= dk1);
    assert(dv.insert(dv.len() as int, rv.last()) =~= dv.push(rv.last()));
    lemma_table_insert(dk, dv, dk.len() as int, k, rv.last());
    assert(table(lk, lv).union_prefer_right(table(rk, rv)).union_prefer_right(table(dk, dv))
        =~= table(lk, lv).union_prefer_right(table(rk0, rv.drop_last())).union_prefer_right(
        table(dk1, dv.push(rv.last())),
    ));
}

/// The largest key left stands at the end of the left table only: its
/// record is taken.
proof fn lemma_take_left<V>(
    target: Map<Seq<char>, V>,
    lk: Seq<Seq<char>>,
    lv: Seq<V>,
    rk: Seq<Seq<char>>,
    rv: Seq<V>,
    dk: Seq<Seq<char>>,
    dv: Seq<V>,
)
    requires
        merging(target, lk, lv, rk, rv, dk, dv),
        lk.len() > 0,
        rk.len() > 0 ==> str_before(rk.last(), lk.last()),
    ensures
        merging(
            target,
            lk.drop_last(),
            lv.drop_last(),
            rk,
            rv,
            dk.push(lk.last()),
            dv.push(lv.last()),
        ),
{
    let k = lk.last();
    let lk0 = lk.drop_last();
    let dk1 = dk.push(k);
    lemma_ascending_no_duplicates(lk);
    lemma_descending_no_duplicates(dk);
    lemma_table_last(lk, lv);
    assert forall|i: int, j: int| 0 <= i < j < dk1.len() implies str_before(
        #[trigger] dk1[j],
        #[trigger] dk1[i],
    ) by {
        if j == dk.len() {
            assert(str_before(lk[lk.len() - 1], dk[i]));
        }
    }
    assert forall|i: int, j: int| 0 <= i < rk.len() && 0 <= j < dk1.len() implies str_before(
        #[trigger] rk[i],
        #[trigger] dk1[j],
    ) by {
        if j == dk.len() {
            if i < rk.len() - 1 {
                assert(str_before(rk[i], rk[rk.len() - 1]));
                lemma_str_before_transitive(rk[i], rk.last(), k);
            }
        }
    }
    assert forall|i: int, j: int| 0 <= i < lk0.len() && 0 <= j < dk1.len() implies str_before(
        #[trigger] lk0[i],
        #[trigger] dk1[j],
    ) by {
        assert(lk0[i] == lk[i]);
        if j == dk.len() {
            assert(str_before(lk[i], lk[lk.len() - 1]));
        }
    }
    assert(!dk.contains(k)) by {
        if dk.contains(k) {
            let j = choose|j: int| 0 <= j < dk.len() && dk[j] == k;
            assert(str_before(lk[lk.len() - 1], dk[j]));
            lemma_str_before_irreflexive(k);
        }
    }
    assert(!rk.contains(k)) by {
        if rk.contains(k) {
            let j = choose|j: int| 0 <= j < rk.len() && rk[j] == k;
            if j < rk.len() - 1 {
                assert(str_before(rk[j], rk[rk.len() - 1]));
                lemma_str_before_transitive(rk[j], rk.last(), k);
            }
            lemma_str_before_irreflexive(k);
        }
    }
    lemma_descending_no_duplicates(dk1);
    assert(dk.insert(dk.len() as int, k) =~= dk1);
    assert(dv.insert(dv.len() as int, lv.last()) =~= dv.push(lv.last()));
    lemma_table_insert(dk, dv, dk.len() as int, k, lv.last());
    assert(table(lk, lv).union_prefer_right(table(rk, rv)).union_prefer_right(table(dk, dv))
        =~= table(lk0, lv.drop_last()).union_prefer_right(table(rk, rv)).union_prefer_right(
        table(dk1, dv.push(lv.last())),
    ));
}

/// Both tables end with the same key: the record of the left table gives
/// way to that of the right.
proof fn lemma_drop_left<V>(
    target: Map<Seq<char>, V>,
    lk: Seq<Seq<char>>,
    lv: Seq<V>,
    rk: Seq<Seq<char>>,
    rv: Seq<V>,
    dk: Seq<Seq<char>>,
    dv: Seq<V>,
)
    requires
        merging(target, lk, lv, rk, rv, dk, dv),
        lk.len() > 0,
        rk.len() > 0,
        lk.last() == rk.last(),
    ensures
        merging(target, lk.drop_last(), lv.drop_last(), rk, rv, dk, dv),
{
    let lk0 = lk.drop_last();
    lemma_ascending_no_duplicates(lk);
    lemma_ascending_no_duplicates(rk);
    lemma_table_last(lk, lv);
    lemma_table_at(rk, rv, rk.len() - 1);
    assert forall|i: int, j: int| 0 <= i < lk0.len() && 0 <= j < dk.len() implies str_before(
        #[trigger] lk0[i],
        #[trigger] dk[j],
    ) by {
        assert(lk0[i] == lk[i]);
    }
    assert forall|i: int, j: int| 0 <= i < j < lk0.len() implies str_before(
        #[trigger] lk0[i],
        #[trigger] lk0[j],
    ) by {
        assert(lk0[i] == lk[i] && lk0[j] == lk[j]);
    }
    assert(table(lk, lv).union_prefer_right(table(rk, rv)).union_prefer_right(table(dk, dv))
        =~= table(lk0, lv.drop_last()).union_prefer_right(table(rk, rv)).union_prefer_right(
        table(dk, dv),
    ));
}

/// A table of strings and values of type `V`, sorted by key.
///
/// The keys are held in ascending byte order, each once, with the value of
/// a key at the index of the key. A key is looked up by bisection;
/// inserting one shifts the records behind it; two tables are merged in one
/// pass.
#[derive(Debug)]
pub struct Table<V> {
    keys: Vec<String>,
    values: Vec<V>,
}

impl<V> View for Table<V> {
    type V = Map<Seq<char>, V>;

    open spec fn view(&self) -> Map<Seq<char>, V> {
        table(self.listing(), self.column())
    }
}

/// Finds the slot of `key` in a sorted vector by bisection.
fn find_slot(items: &Vec<String>, key: &str) -> (r: (usize, bool))
    requires
        strictly_ascending(views_of(items@)),
    ensures
        is_slot(views_of(items@), key@, r.0 as int, r.1),
{
    let ghost s = views_of(items@);
    let mut lo: usize = 0;
    let mut hi: usize = items.len();
    while lo < hi
        invariant
            0 <= lo <= hi <= items.len(),
            s == views_of(items@),
            strictly_ascending(s),
            forall|i: int| 0 <= i < lo ==> str_before(#[trigger] s[i], key@),
            forall|i: int| hi <= i < s.len() ==> str_before(key@, #[trigger] s[i]),
        decreases hi - lo,
    {
        let mid: usize = lo + (hi - lo) / 2;
        match compare(items[mid].as_str(), key) {
            Rank::Before => {
                proof {
                    assert forall|i: int| 0 <= i < mid + 1 implies str_before(
                        #[trigger] s[i],
                        key@,
                    ) by {
                        if i < mid {
                            lemma_str_before_transitive(s[i], s[mid as int], key@);
                        }
                    }
                }
                lo = mid + 1;
            },
            Rank::Same => {
                proof {
                    assert forall|i: int| 0 <= i < mid implies str_before(
                        #[trigger] s[i],
                        key@,
                    ) by {
                        assert(str_before(s[i], s[mid as int]));
                    }
                    assert forall|i: int| mid < i < s.len() implies str_before(
                        key@,
                        #[trigger] s[i],
                    ) by {
                        assert(str_before(s[mid as int], s[i]));
                    }
                }
                return (mid, true);
            },
            Rank::After => {
                proof {
                    assert forall|i: int| mid <= i < s.len() implies str_before(
                        key@,
                        #[trigger] s[i],
                    ) by {
                        if mid < i {
                            lemma_str_before_transitive(key@, s[mid as int], s[i]);
                        }
                    }
                }
                hi = mid;
            },
        }
    }
    (lo, false)
}

impl<V> Table<V> {
    #[verifier::type_invariant]
    spec fn columns_agree(&self) -> bool {
        &&& strictly_ascending(views_of(self.keys@))
        &&& self.keys@.len() == self.values@.len()
    }

    /// The keys of the table in ascending order.
    pub closed spec fn listing(&self) -> Seq<Seq<char>> {
        views_of(self.keys@)
    }

    /// The values of the table, in the order of `listing`.
    pub closed spec fn column(&self) -> Seq<V> {
        self.values@
    }

    /// The empty table.
    pub fn new() -> (r: Self)
        ensures
            r@ == Map::<Seq<char>, V>::empty(),
            r.listing() == Seq::<Seq<char>>::empty(),
    {
        let r = Table { keys: Vec::new(), values: Vec::new() };
        assert(r.listing() =~= Seq::<Seq<char>>::empty());
        assert(r@ =~= Map::<Seq<char>, V>::empty());
        r
    }

    /// The number of records in the table.
    pub fn len(&self) -> (n: usize)
        ensures
            n == self@.dom().len(),
            n == self.listing().len(),
    {
        proof {
            use_type_invariant(self);
            lemma_ascending_no_duplicates(self.listing());
            self.listing().unique_seq_to_set();
            assert(self@.dom() =~= self.listing().to_set());
        }
        self.keys.len()
    }

    /// Whether the table holds `key`.
    pub fn contains_key(&self, key: &str) -> (b: bool)
        ensures
            b == self@.dom().contains(key@),
    {
        proof {
            use_type_invariant(self);
        }
        let (pos, found) = find_slot(&self.keys, key);
        proof {
            lemma_slot_decides_membership(self.listing(), key@, pos as int, found);
        }
        found
    }

    /// The value of `key`, if the table holds the key.
    pub fn get(&self, key: &str) -> (r: Option<&V>)
        ensures
            match r {
                Some(value) => self@.dom().contains(key@) && *value == self@[key@],
                None => !self@.dom().contains(key@),
            },
    {
        proof {
            use_type_invariant(self);
        }
        let (pos, found) = find_slot(&self.keys, key);
        proof {
            lemma_slot_decides_membership(self.listing(), key@, pos as int, found);
            lemma_ascending_no_duplicates(self.listing());
        }
        if found {
            proof {
                lemma_table_at(self.listing(), self.column(), pos as int);
            }
            Some(&self.values[pos])
        } else {
            None
        }
    }

    /// Gives `key` the value `value`, in place of an earlier value if the
    /// table held the key. Returns whether the table did not hold the key
    /// before.
    pub fn insert(&mut self, key: String, value: V) -> (added: bool)
        ensures
            final(self)@ == old(self)@.insert(key@, value),
            added == !old(self)@.dom().contains(key@),
    {
        proof {
            use_type_invariant(&*self);
        }
        let (pos, found) = find_slot(&self.keys, key.as_str());
        proof {
            lemma_slot_decides_membership(self.listing(), key@, pos as int, found);
            lemma_ascending_no_duplicates(self.listing());
        }
        let ghost old_keys = self.listing();
        let ghost old_values = self.column();
        let mut taken = Table::new();
        core::mem::swap(self, &mut taken);
        let Table { keys: taken_keys, values: taken_values } = taken;
        let mut keys: Vec<String> = taken_keys;
        let mut values: Vec<V> = taken_values;
        if found {
            proof {
                lemma_table_update(old_keys, old_values, pos as int, value);
            }
            values.set(pos, value);
        } else {
            proof {
                lemma_insert_at_slot(old_keys, key@, pos as int);
                lemma_ascending_no_duplicates(old_keys.insert(pos as int, key@));
                lemma_table_insert(old_keys, old_values, pos as int, key@, value);
                assert(views_of(keys@.insert(pos as int, key)) =~= old_keys.insert(
                    pos as int,
                    key@,
                ));
            }
            keys.insert(pos, key);
            values.insert(pos, value);
        }
        *self = Table { keys, values };
        !found
    }

    /// Adds every record of `other`; where both tables hold a key, the value
    /// of `other` stays.
    pub fn extend(&mut self, other: Table<V>)
        ensures
            final(self)@ == old(self)@.union_prefer_right(other@),
    {
        proof {
            use_type_invariant(&*self);
            use_type_invariant(&other);
        }
        let ghost target = self@.union_prefer_right(other@);
        let mut taken = Table::new();
        core::mem::swap(self, &mut taken);
        let Table { keys: left_keys, values: left_values } = taken;
        let Table { keys: right_keys, values: right_values } = other;
        // What is left of this table and of the other: keys and values.
        let mut lk: Vec<String> = left_keys;
        let mut lv: Vec<V> = left_values;
        let mut rk: Vec<String> = right_keys;
        let mut rv: Vec<V> = right_values;
        // What is taken from the ends of the two tables, largest key first.
        let mut dk: Vec<String> = Vec::new();
        let mut dv: Vec<V> = Vec::new();
        proof {
            lemma_table_empty(views_of(dk@), dv@);
            assert(target =~= target.union_prefer_right(Map::<Seq<char>, V>::empty()));
        }
        while lk.len() > 0 && rk.len() > 0
            invariant
                merging(target, views_of(lk@), lv@, views_of(rk@), rv@, views_of(dk@), dv@),
            decreases lk.len() + rk.len(),
        {
            let ghost lkv = views_of(lk@);
            let ghost rkv = views_of(rk@);
            let ghost dkv = views_of(dk@);
            let ghost lvv = lv@;
            let ghost rvv = rv@;
            let ghost dvv = dv@;
            assert(lkv.last() == lk@[lk@.len() - 1]@);
            assert(rkv.last() == rk@[rk@.len() - 1]@);
            match compare(lk[lk.len() - 1].as_str(), rk[rk.len() - 1].as_str()) {
                Rank::Before => {
                    let key = rk.pop().unwrap();
                    let value = rv.pop().unwrap();
                    dk.push(key);
                    dv.push(value);
                    proof {
                        lemma_take_right(target, lkv, lvv, rkv, rvv, dkv, dvv);
                        assert(views_of(rk@) =~= rkv.drop_last());
                        assert(views_of(dk@) =~= dkv.push(rkv.last()));
                    }
                },
                Rank::After => {
                    let key = lk.pop().unwrap();
                    let value = lv.pop().unwrap();
                    dk.push(key);
                    dv.push(value);
                    proof {
                        lemma_take_left(target, lkv, lvv, rkv, rvv, dkv, dvv);
                        assert(views_of(lk@) =~= lkv.drop_last());
                        assert(views_of(dk@) =~= dkv.push(lkv.last()));
                    }
                },
                Rank::Same => {
                    lk.pop();
                    lv.pop();
                    proof {
                        lemma_drop_left(target, lkv, lvv, rkv, rvv, dkv, dvv);
                        assert(views_of(lk@) =~= lkv.drop_last());
                    }
                },
            }
        }
        // One table is used up: what is left of the other comes first.
        if lk.len() == 0 {
            lk = rk;
            lv = rv;
            rk = Vec::new();
            rv = Vec::new();
            proof {
                lemma_table_empty(Seq::<Seq<char>>::empty(), Seq::<V>::empty());
                assert(views_of(rk@) =~= Seq::<Seq<char>>::empty());
                assert(rv@ =~= Seq::<V>::empty());
                assert(target =~= table(views_of(lk@), lv@).union_prefer_right(
                    table(views_of(rk@), rv@),
                ).union_prefer_right(table(views_of(dk@), dv@)));
            }
        }
        proof {
            lemma_table_empty(views_of(rk@), rv@);
        }
        while dk.len() > 0
            invariant
                rk@.len() == 0,
                rv@.len() == 0,
                merging(target, views_of(lk@), lv@, views_of(rk@), rv@, views_of(dk@), dv@),
            decreases dk.len(),
        {
            let ghost lkv = views_of(lk@);
            let ghost dkv = views_of(dk@);
            let ghost lvv = lv@;
            let ghost dvv = dv@;
            assert(dkv.last() == dk@[dk@.len() - 1]@);
            let key = dk.pop().unwrap();
            let value = dv.pop().unwrap();
            lk.push(key);
            lv.push(value);
            proof {
                lemma_give_back(target, lkv, lvv, views_of(rk@), rv@, dkv, dvv);
                assert(views_of(dk@) =~= dkv.drop_last());
                assert(views_of(lk@) =~= lkv.push(dkv.last()));
            }
        }
        proof {
            lemma_table_empty(views_of(rk@), rv@);
            lemma_table_empty(views_of(dk@), dv@);
            assert(target =~= table(views_of(lk@), lv@));
        }
        *self = Table { keys: lk, values: lv };
    }

    /// The keys of the table in ascending order.
    pub fn keys(&self) -> (v: &Vec<String>)
        ensures
            views_of(v@) == self.listing(),
            views_of(v@).to_set() == self@.dom(),
            strictly_ascending(views_of(v@)),
    {
        proof {
            use_type_invariant(self);
            assert(self@.dom() =~= self.listing().to_set());
        }
        &self.keys
    }

    /// The values of the table, in the order of `keys`.
    pub fn values(&self) -> (v: &Vec<V>)
        ensures
            v@ == self.column(),
            v@.len() == self.listing().len(),
            forall|i: int| 0 <= i < v@.len() ==> self@[#[trigger] self.listing()[i]] == v@[i],
    {
        proof {
            use_type_invariant(self);
            lemma_ascending_no_duplicates(self.listing());
            assert forall|i: int| 0 <= i < self.column().len() implies self@[#[trigger] self.listing()[i]]
                == self.column()[i] by {
                lemma_table_at(self.listing(), self.column(), i);
            }
        }
        &self.values
    }

    /// The two columns of the table: the keys in ascending order, and the
    /// value of each key at the index of the key.
    pub fn into_columns(self) -> (r: (Vec<String>, Vec<V>))
        ensures
            views_of(r.0@) == self.listing(),
            r.1@ == self.column(),
            views_of(r.0@).to_set() == self@.dom(),
            strictly_ascending(views_of(r.0@)),
            r.0@.len() == r.1@.len(),
            self@ == table(views_of(r.0@), r.1@),
    {
        proof {
            use_type_invariant(&self);
            assert(self@.dom() =~= self.listing().to_set());
        }
        let Table { keys, values } = self;
        (keys, values)
    }
}

/// With the right table used up, the smallest key taken goes back behind the
/// keys that were left: the columns stay sorted and make up the same map.
proof fn lemma_give_back<V>(
    target: Map<Seq<char>, V>,
    lk: Seq<Seq<char>>,
    lv: Seq<V>,
    rk: Seq<Seq<char>>,
    rv: Seq<V>,
    dk: Seq<Seq<char>>,
    dv: Seq<V>,
)
    requires
        merging(target, lk, lv, rk, rv, dk, dv),
        rk.len() == 0,
        dk.len() > 0,
    ensures
        merging(
            target,
            lk.push(dk.last()),
            lv.push(dv.last()),
            rk,
            rv,
            dk.drop_last(),
            dv.drop_last(),
        ),
{
    let k = dk.last();
    let lk1 = lk.push(k);
    let dk0 = dk.drop_last();
    lemma_ascending_no_duplicates(lk);
    lemma_descending_no_duplicates(dk);
    lemma_table_last(dk, dv);
    lemma_table_empty(rk, rv);
    assert forall|i: int, j: int| 0 <= i < j < lk1.len() implies str_before(
        #[trigger] lk1[i],
        #[trigger] lk1[j],
    ) by {
        if j == lk.len() {
            assert(str_before(lk[i], dk[dk.len() - 1]));
        }
    }
    assert forall|i: int, j: int| 0 <= i < j < dk0.len() implies str_before(
        #[trigger] dk0[j],
        #[trigger] dk0[i],
    ) by {
        assert(dk0[i] == dk[i] && dk0[j] == dk[j]);
    }
    assert forall|i: int, j: int| 0 <= i < lk1.len() && 0 <= j < dk0.len() implies str_before(
        #[trigger] lk1[i],
        #[trigger] dk0[j],
    ) by {
        assert(dk0[j] == dk[j]);
        if i == lk.len() {
            assert(str_before(dk[dk.len() - 1], dk[j]));
        }
    }
    assert(!lk.contains(k)) by {
        if lk.contains(k) {
            let i = choose|i: int| 0 <= i < lk.len() && lk[i] == k;
            assert(str_before(lk[i], dk[dk.len() - 1]));
            lemma_str_before_irreflexive(k);
        }
    }
    lemma_ascending_no_duplicates(lk1);
    assert(lk.insert(lk.len() as int, k) =~= lk1);
    assert(lv.insert(lv.len() as int, dv.last()) =~= lv.push(dv.last()));
    lemma_table_insert(lk, lv, lk.len() as int, k, dv.last());
    assert(table(lk, lv).union_prefer_right(table(rk, rv)).union_prefer_right(table(dk, dv))
        =~= table(lk1, lv.push(dv.last())).union_prefer_right(table(rk, rv)).union_prefer_right(
        table(dk0, dv.drop_last()),
    ));
}

} // verus!
