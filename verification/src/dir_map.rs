//! A map from directory paths to modification times, sorted by path.

use vstd::prelude::*;
use crate::order::strictly_ascending;
use crate::table::{table, views_of, Table};

verus! {

/// A point in time: whole seconds since the Unix epoch and the nanoseconds
/// beyond them.
#[derive(Clone, Copy, Debug, PartialEq, Eq, Structural)]
pub struct Timestamp {
    pub secs: u64,
    pub nanos: u32,
}

/// The modification times of directories, by path.
///
/// The paths are held in ascending byte order, each once.
#[derive(Debug)]
pub struct DirectoryMap {
    table: Table<Timestamp>,
}

impl View for DirectoryMap {
    type V = Map<Seq<char>, Timestamp>;

    open spec fn view(&self) -> Map<Seq<char>, Timestamp> {
        table(self.paths(), self.times())
    }
}

impl DirectoryMap {
    /// The paths of the map in ascending order.
    pub closed spec fn paths(&self) -> Seq<Seq<char>> {
        self.table.listing()
    }

    /// The modification times, in the order of `paths`.
    pub closed spec fn times(&self) -> Seq<Timestamp> {
        self.table.column()
    }

    /// The empty map.
    pub fn new() -> (r: Self)
        ensures
            r@ == Map::<Seq<char>, Timestamp>::empty(),
    {
        DirectoryMap { table: Table::new() }
    }

    /// The number of paths in the map.
    pub fn len(&self) -> (n: usize)
        ensures
            n == self@.dom().len(),
            n == self.paths().len(),
    {
        self.table.len()
    }

    /// Whether the map holds `path`.
    pub fn contains_key(&self, path: &str) -> (b: bool)
        ensures
            b == self@.dom().contains(path@),
    {
        self.table.contains_key(path)
    }

    /// The modification time recorded for `path`, if there is one.
    pub fn get(&self, path: &str) -> (r: Option<Timestamp>)
        ensures
            r == if self@.dom().contains(path@) {
                Some(self@[path@])
            } else {
                None
            },
    {
        match self.table.get(path) {
            Some(modified) => Some(*modified),
            None => None,
        }
    }

    /// Records `modified` for `path`, in place of an earlier time if the map
    /// held one.
    pub fn insert(&mut self, path: String, modified: Timestamp)
        ensures
            final(self)@ == old(self)@.insert(path@, modified),
    {
        self.table.insert(path, modified);
    }

    /// Adds every record of `other`; where both maps hold a path, the time
    /// of `other` stays.
    pub fn extend(&mut self, other: DirectoryMap)
        ensures
            final(self)@ == old(self)@.union_prefer_right(other@),
    {
        let DirectoryMap { table } = other;
        self.table.extend(table);
    }

    /// The paths of the map in ascending order.
    pub fn keys(&self) -> (v: &Vec<String>)
        ensures
            views_of(v@) == self.paths(),
            views_of(v@).to_set() == self@.dom(),
            strictly_ascending(views_of(v@)),
    {
        self.table.keys()
    }

    /// The modification times, in the order of `keys`.
    pub fn values(&self) -> (v: &Vec<Timestamp>)
        ensures
            v@ == self.times(),
            v@.len() == self.paths().len(),
            forall|i: int| 0 <= i < v@.len() ==> self@[#[trigger] self.paths()[i]] == v@[i],
    {
        self.table.values()
    }
}

} // verus!
