//! The scan engine: what a traversal contributes to the result of a scan,
//! in its sequential form and in the form that folds the parts handed to
//! concurrent workers and merges what they found.

use vstd::prelude::*;
use crate::dir_map::{DirectoryMap, Timestamp};
use crate::entry::{allowed, extension_of, extension_set, is_allowed, keeps, listed_path, lowered, matches_extension, stream_of};
use crate::entry::{ItemView, WalkItem};
use crate::order::strictly_ascending;
use crate::string_set::StringSet;
use crate::table::views_of;

verus! {

/// The result of a scan as mathematical values: the relative paths of the
/// files kept, and the modification time of each directory visited.
pub struct ScanView {
    pub files: Set<Seq<char>>,
    pub dirs: Map<Seq<char>, Timestamp>,
}

/// The result of a scan that has seen nothing.
pub open spec fn empty_scan() -> ScanView {
    ScanView { files: Set::empty(), dirs: Map::empty() }
}

/// A directory below the root whose modification time was read: its path and
/// time go into the directory map.
pub open spec fn records_dir(item: ItemView) -> bool {
    item matches ItemView::Found(e) && e.depth > 0 && e.is_dir && e.modified is Some
}

/// A file below the root that the extension set keeps: its relative path
/// goes into the file set.
pub open spec fn records_file(item: ItemView, extensions: Set<Seq<char>>) -> bool {
    item matches ItemView::Found(e) && e.depth > 0 && !e.is_dir && keeps(
        extensions,
        extension_of(e.extension),
    )
}

/// The result `acc` after one more item of a traversal. A failed item and the
/// root itself change nothing.
pub open spec fn recorded(acc: ScanView, item: ItemView, extensions: Set<Seq<char>>) -> ScanView {
    match item {
        ItemView::Found(e) => if records_dir(item) {
            ScanView { files: acc.files, dirs: acc.dirs.insert(e.path, e.modified->0) }
        } else if records_file(item, extensions) {
            ScanView { files: acc.files.insert(listed_path(e)), dirs: acc.dirs }
        } else {
            acc
        },
        ItemView::Failed { .. } => acc,
    }
}

/// The result `acc` after the items of a traversal, taken in order.
pub open spec fn recorded_all(
    acc: ScanView,
    items: Seq<ItemView>,
    extensions: Set<Seq<char>>,
) -> ScanView
    decreases items.len(),
{
    if items.len() == 0 {
        acc
    } else {
        recorded(recorded_all(acc, items.drop_last(), extensions), items.last(), extensions)
    }
}

/// Two partial results put together: the union of the file sets, and the
/// union of the directory maps in which, for a path that both hold, the time
/// of `b` stays.
pub open spec fn merged(a: ScanView, b: ScanView) -> ScanView {
    ScanView { files: a.files.union(b.files), dirs: a.dirs.union_prefer_right(b.dirs) }
}

/// The traversal filter turns this item away: it is an excluded directory.
pub open spec fn turned_away(item: ItemView, excluded: Set<Seq<char>>) -> bool {
    item matches ItemView::Found(e) && !allowed(e, excluded)
}

/// In a depth-first listing, every item after `i` and before `n` lies deeper
/// than item `i`: the listing has not left the subtree of `i` before `n`.
pub open spec fn encloses(items: Seq<ItemView>, i: int, n: int) -> bool {
    forall|k: int| i < k < n ==> (#[trigger] items[k]).depth() > items[i].depth()
}

/// In a depth-first listing, item `j` lies in the subtree below item `i`.
pub open spec fn beneath(items: Seq<ItemView>, i: int, j: int) -> bool {
    i < j && encloses(items, i, j + 1)
}

/// A pruning traversal visits item `j` of a depth-first listing: the item is
/// not turned away and lies beneath no item that is.
pub open spec fn visited(items: Seq<ItemView>, excluded: Set<Seq<char>>, j: int) -> bool {
    &&& !turned_away(items[j], excluded)
    &&& forall|i: int|
        0 <= i < j && turned_away(#[trigger] items[i], excluded) ==> !beneath(items, i, j)
}

/// The items that a pruning traversal visits among the first `n` of a
/// depth-first listing, in order.
pub open spec fn visited_prefix(items: Seq<ItemView>, excluded: Set<Seq<char>>, n: int) -> Seq<
    ItemView,
>
    decreases n,
{
    if n <= 0 {
        Seq::empty()
    } else if visited(items, excluded, n - 1) {
        visited_prefix(items, excluded, n - 1).push(items[n - 1])
    } else {
        visited_prefix(items, excluded, n - 1)
    }
}

/// The items of a depth-first listing that a pruning traversal visits.
pub open spec fn surviving(items: Seq<ItemView>, excluded: Set<Seq<char>>) -> Seq<ItemView> {
    visited_prefix(items, excluded, items.len() as int)
}

/// A root folder of a scan, as it was found when the scan reached it.
#[derive(Debug)]
pub struct Root {
    /// The folder as the caller named it.
    pub folder: String,
    /// Whether the folder exists and is a directory.
    pub is_dir: bool,
    /// When the folder was last modified, where that could be read.
    pub modified: Option<Timestamp>,
}

/// The mathematical content of a [`Root`].
pub struct RootView {
    pub folder: Seq<char>,
    pub is_dir: bool,
    pub modified: Option<Timestamp>,
}

impl View for Root {
    type V = RootView;

    open spec fn view(&self) -> RootView {
        RootView { folder: self.folder@, is_dir: self.is_dir, modified: self.modified }
    }
}

/// A root folder with the depth-first listing of what lies under it.
#[derive(Debug)]
pub struct RootWalk {
    pub root: Root,
    pub items: Vec<WalkItem>,
}

/// The mathematical content of a [`RootWalk`].
pub struct RootWalkView {
    pub root: RootView,
    pub items: Seq<ItemView>,
}

impl View for RootWalk {
    type V = RootWalkView;

    open spec fn view(&self) -> RootWalkView {
        RootWalkView { root: self.root@, items: stream_of(self.items@) }
    }
}

/// A root folder with the items that its traversal yielded, as they were
/// dealt out to workers: one part for each worker.
#[derive(Debug)]
pub struct RootParts {
    pub root: Root,
    pub parts: Vec<Vec<WalkItem>>,
}

/// The mathematical content of a [`RootParts`].
pub struct RootPartsView {
    pub root: RootView,
    pub parts: Seq<Seq<ItemView>>,
}

/// The views of the parts of a traversal.
pub open spec fn parts_of(parts: Seq<Vec<WalkItem>>) -> Seq<Seq<ItemView>> {
    parts.map_values(|part: Vec<WalkItem>| stream_of(part@))
}

impl View for RootParts {
    type V = RootPartsView;

    open spec fn view(&self) -> RootPartsView {
        RootPartsView { root: self.root@, parts: parts_of(self.parts@) }
    }
}

/// The views of a sequence of root listings.
pub open spec fn walks_of(roots: Seq<RootWalk>) -> Seq<RootWalkView> {
    roots.map_values(|r: RootWalk| r@)
}

/// The views of a sequence of partitioned roots.
pub open spec fn partitions_of(roots: Seq<RootParts>) -> Seq<RootPartsView> {
    roots.map_values(|r: RootParts| r@)
}

/// The result `acc` after a scan has reached `root`: a root that is a
/// directory is recorded under the name the caller gave it, if its
/// modification time was readable.
pub open spec fn entered(acc: ScanView, root: RootView) -> ScanView {
    if root.is_dir && root.modified is Some {
        ScanView { files: acc.files, dirs: acc.dirs.insert(root.folder, root.modified->0) }
    } else {
        acc
    }
}

/// The result `acc` after the sequential scan of one root: a root that is
/// no directory is passed over; else the root is recorded and then every
/// item that the pruning traversal visits, in order.
pub open spec fn scanned_root(
    acc: ScanView,
    walk: RootWalkView,
    extensions: Set<Seq<char>>,
    excluded: Set<Seq<char>>,
) -> ScanView {
    if walk.root.is_dir {
        recorded_all(entered(acc, walk.root), surviving(walk.items, excluded), extensions)
    } else {
        acc
    }
}

/// The result of the sequential scan of the roots, in order.
pub open spec fn scanned(
    roots: Seq<RootWalkView>,
    extensions: Set<Seq<char>>,
    excluded: Set<Seq<char>>,
) -> ScanView
    decreases roots.len(),
{
    if roots.len() == 0 {
        empty_scan()
    } else {
        scanned_root(
            scanned(roots.drop_last(), extensions, excluded),
            roots.last(),
            extensions,
            excluded,
        )
    }
}

/// What the workers of one traversal found together: each part folded from
/// the empty result, and the partial results merged in the order of the
/// parts.
pub open spec fn reduced(parts: Seq<Seq<ItemView>>, extensions: Set<Seq<char>>) -> ScanView
    decreases parts.len(),
{
    if parts.len() == 0 {
        empty_scan()
    } else {
        merged(
            reduced(parts.drop_last(), extensions),
            recorded_all(empty_scan(), parts.last(), extensions),
        )
    }
}

/// The result `acc` after the partitioned scan of one root.
pub open spec fn partitioned_root(
    acc: ScanView,
    root: RootPartsView,
    extensions: Set<Seq<char>>,
) -> ScanView {
    if root.root.is_dir {
        merged(entered(acc, root.root), reduced(root.parts, extensions))
    } else {
        acc
    }
}

/// The result of the partitioned scan of the roots, in order.
pub open spec fn partitioned(roots: Seq<RootPartsView>, extensions: Set<Seq<char>>) -> ScanView
    decreases roots.len(),
{
    if roots.len() == 0 {
        empty_scan()
    } else {
        partitioned_root(partitioned(roots.drop_last(), extensions), roots.last(), extensions)
    }
}

/// The depth at which `item` was reported.
pub fn item_depth(item: &WalkItem) -> (d: usize)
    ensures
        d == item@.depth(),
{
    match item {
        WalkItem::Found(entry) => entry.depth,
        WalkItem::Failed { depth } => *depth,
    }
}

/// The partial result of a scan: what one worker, or the scan as a whole,
/// has found so far.
#[derive(Debug)]
pub struct Accumulator {
    pub files: StringSet,
    pub dirs: DirectoryMap,
}

impl View for Accumulator {
    type V = ScanView;

    open spec fn view(&self) -> ScanView {
        ScanView { files: self.files@, dirs: self.dirs@ }
    }
}

impl Accumulator {
    /// The result of a scan that has seen nothing.
    pub fn new() -> (r: Self)
        ensures
            r@ == empty_scan(),
    {
        Accumulator { files: StringSet::new(), dirs: DirectoryMap::new() }
    }

    /// Takes note of a root folder. Returns whether the folder is to be
    /// walked.
    pub fn enter_root(&mut self, root: &Root) -> (walk: bool)
        ensures
            final(self)@ == entered(old(self)@, root@),
            walk == root.is_dir,
    {
        if !root.is_dir {
            return false;
        }
        if let Some(modified) = root.modified {
            self.dirs.insert(root.folder.clone(), modified);
        }
        true
    }

    /// Takes note of one item that a traversal yielded.
    pub fn record(&mut self, item: &WalkItem, extensions: &StringSet)
        ensures
            final(self)@ == recorded(old(self)@, item@, extensions@),
    {
        match item {
            WalkItem::Failed { .. } => {},
            WalkItem::Found(entry) => {
                if entry.depth == 0 {
                    return;
                }
                if entry.is_dir {
                    if let Some(modified) = entry.modified {
                        self.dirs.insert(entry.path.clone(), modified);
                    }
                    return;
                }
                if matches_extension(entry, extensions) {
                    let listed = match &entry.relative {
                        Some(relative) => relative.clone(),
                        None => entry.path.clone(),
                    };
                    self.files.insert(listed);
                }
            },
        }
    }

    /// Takes note of the items that a traversal yielded, in order.
    pub fn record_all(&mut self, items: &Vec<WalkItem>, extensions: &StringSet)
        ensures
            final(self)@ == recorded_all(old(self)@, stream_of(items@), extensions@),
    {
        let ghost start = self@;
        let ghost s = stream_of(items@);
        let mut n: usize = 0;
        while n < items.len()
            invariant
                0 <= n <= items.len(),
                s == stream_of(items@),
                self@ == recorded_all(start, s.take(n as int), extensions@),
            decreases items.len() - n,
        {
            proof {
                assert(s.take(n + 1).drop_last() =~= s.take(n as int));
                assert(s.take(n + 1).last() == items@[n as int]@);
            }
            self.record(&items[n], extensions);
            n += 1;
        }
        assert(s.take(n as int) =~= s);
    }

    /// Takes in what another worker found. Where both hold a directory, the
    /// time that `other` recorded stays.
    pub fn merge(&mut self, other: Accumulator)
        ensures
            final(self)@ == merged(old(self)@, other@),
    {
        let Accumulator { files, dirs } = other;
        self.files.extend(files);
        self.dirs.extend(dirs);
    }

    /// Walks a depth-first listing as a pruning traversal does, and takes
    /// note of every item visited: an excluded directory is passed over with
    /// all that lies beneath it.
    pub fn scan_items(&mut self, items: &Vec<WalkItem>, extensions: &StringSet, excluded: &StringSet)
        ensures
            final(self)@ == recorded_all(
                old(self)@,
                surviving(stream_of(items@), excluded@),
                extensions@,
            ),
    {
        let ghost start = self@;
        let ghost s = stream_of(items@);
        // The depth of the excluded directory whose subtree is being passed over.
        let mut cut: Option<usize> = None;
        let mut n: usize = 0;
        while n < items.len()
            invariant
                0 <= n <= items.len(),
                s == stream_of(items@),
                self@ == recorded_all(start, visited_prefix(s, excluded@, n as int), extensions@),
                cut matches Some(d) ==> exists|i: int|
                    0 <= i < n && turned_away(#[trigger] s[i], excluded@) && s[i].depth() == d
                        && encloses(s, i, n as int),
                forall|i: int|
                    0 <= i < n && turned_away(#[trigger] s[i], excluded@) && encloses(
                        s,
                        i,
                        n as int,
                    ) ==> cut is Some && cut->0 <= s[i].depth(),
            decreases items.len() - n,
        {
            let item = &items[n];
            let depth = item_depth(item);
            assert(s[n as int] == item@);
            let below_cut = match cut {
                Some(d) => depth > d,
                None => false,
            };
            if below_cut {
                proof {
                    let d = cut->0;
                    let i0 = choose|i: int|
                        0 <= i < n && turned_away(#[trigger] s[i], excluded@) && s[i].depth() == d
                            && encloses(s, i, n as int);
                    assert(encloses(s, i0, n + 1));
                    assert(beneath(s, i0, n as int));
                    assert(!visited(s, excluded@, n as int));
                    assert forall|i: int|
                        0 <= i < n + 1 && turned_away(#[trigger] s[i], excluded@) && encloses(
                            s,
                            i,
                            n + 1,
                        ) implies cut is Some && cut->0 <= s[i].depth() by {
                        if i < n {
                            assert(encloses(s, i, n as int));
                        }
                    }
                }
            } else {
                proof {
                    assert forall|i: int|
                        0 <= i < n && turned_away(#[trigger] s[i], excluded@) implies !encloses(
                        s,
                        i,
                        n + 1,
                    ) by {
                        if encloses(s, i, n + 1) {
                            assert(encloses(s, i, n as int));
                            assert(s[n as int].depth() > s[i].depth());
                        }
                    }
                    assert(visited(s, excluded@, n as int) == !turned_away(s[n as int], excluded@));
                }
                let rejected = match item {
                    WalkItem::Found(entry) => !is_allowed(entry, excluded),
                    WalkItem::Failed { .. } => false,
                };
                if rejected {
                    cut = Some(depth);
                    proof {
                        assert(encloses(s, n as int, n + 1));
                    }
                } else {
                    cut = None;
                    proof {
                        let before = visited_prefix(s, excluded@, n as int);
                        assert(before.push(s[n as int]).drop_last() =~= before);
                    }
                    self.record(item, extensions);
                }
            }
            n += 1;
        }
    }

    /// Scans one root sequentially: records the root, then walks its listing.
    pub fn scan_root(&mut self, walk: &RootWalk, extensions: &StringSet, excluded: &StringSet)
        ensures
            final(self)@ == scanned_root(old(self)@, walk@, extensions@, excluded@),
    {
        if self.enter_root(&walk.root) {
            self.scan_items(&walk.items, extensions, excluded);
        }
    }

    /// Folds each part from the empty result, as a worker does, and merges
    /// the partial results into one.
    pub fn reduce(parts: &Vec<Vec<WalkItem>>, extensions: &StringSet) -> (r: Accumulator)
        ensures
            r@ == reduced(parts_of(parts@), extensions@),
    {
        let ghost p = parts_of(parts@);
        let mut total = Accumulator::new();
        let mut k: usize = 0;
        while k < parts.len()
            invariant
                0 <= k <= parts.len(),
                p == parts_of(parts@),
                total@ == reduced(p.take(k as int), extensions@),
            decreases parts.len() - k,
        {
            let mut partial = Accumulator::new();
            partial.record_all(&parts[k], extensions);
            proof {
                assert(p.take(k + 1).drop_last() =~= p.take(k as int));
                assert(p.take(k + 1).last() == stream_of(parts@[k as int]@));
            }
            total.merge(partial);
            k += 1;
        }
        assert(p.take(k as int) =~= p);
        total
    }

    /// Scans one root whose items were dealt out to workers: records the
    /// root, then merges in what the workers found.
    pub fn scan_root_parts(&mut self, root: &RootParts, extensions: &StringSet)
        ensures
            final(self)@ == partitioned_root(old(self)@, root@, extensions@),
    {
        if self.enter_root(&root.root) {
            let found = Accumulator::reduce(&root.parts, extensions);
            self.merge(found);
        }
    }

    /// The final result: the files as a sorted list without repetitions, and
    /// the directory map.
    pub fn finish(self) -> (r: (Vec<String>, DirectoryMap))
        ensures
            strictly_ascending(views_of(r.0@)),
            views_of(r.0@).to_set() == self@.files,
            r.1@ == self@.dirs,
    {
        let Accumulator { files, dirs } = self;
        (files.into_sorted(), dirs)
    }
}

/// Scans the root folders one after the other.
///
/// Returns the relative paths of all files that the extension set keeps,
/// sorted and each once, and the modification times of the roots and of all
/// directories visited. The configured extensions are matched in lower case;
/// a directory whose name is in `excluded_dir_names` is passed over with all
/// that lies beneath it.
pub fn scan_model_folders(
    folders: Vec<RootWalk>,
    extensions: Vec<String>,
    excluded_dir_names: Vec<String>,
) -> (r: (Vec<String>, DirectoryMap))
    ensures
        strictly_ascending(views_of(r.0@)),
        views_of(r.0@).to_set() == scanned(
            walks_of(folders@),
            lowered(views_of(extensions@)).to_set(),
            views_of(excluded_dir_names@).to_set(),
        ).files,
        r.1@ == scanned(
            walks_of(folders@),
            lowered(views_of(extensions@)).to_set(),
            views_of(excluded_dir_names@).to_set(),
        ).dirs,
{
    let extension_set = extension_set(&extensions);
    let excluded_set = StringSet::from_vec(excluded_dir_names);
    let ghost w = walks_of(folders@);
    let mut total = Accumulator::new();
    let mut k: usize = 0;
    while k < folders.len()
        invariant
            0 <= k <= folders.len(),
            w == walks_of(folders@),
            total@ == scanned(w.take(k as int), extension_set@, excluded_set@),
        decreases folders.len() - k,
    {
        proof {
            assert(w.take(k + 1).drop_last() =~= w.take(k as int));
            assert(w.take(k + 1).last() == folders@[k as int]@);
        }
        total.scan_root(&folders[k], &extension_set, &excluded_set);
        k += 1;
    }
    assert(w.take(k as int) =~= w);
    total.finish()
}

/// Scans the root folders whose traversals were dealt out to workers.
///
/// Each part is folded by itself and the partial results are merged, first
/// within a root and then across the roots. The items are taken as the
/// traversal yielded them: pruning is the traversal's part.
pub fn scan_partitioned(folders: Vec<RootParts>, extensions: Vec<String>) -> (r: (
    Vec<String>,
    DirectoryMap,
))
    ensures
        strictly_ascending(views_of(r.0@)),
        views_of(r.0@).to_set() == partitioned(
            partitions_of(folders@),
            lowered(views_of(extensions@)).to_set(),
        ).files,
        r.1@ == partitioned(
            partitions_of(folders@),
            lowered(views_of(extensions@)).to_set(),
        ).dirs,
{
    let extension_set = extension_set(&extensions);
    let ghost w = partitions_of(folders@);
    let mut total = Accumulator::new();
    let mut k: usize = 0;
    while k < folders.len()
        invariant
            0 <= k <= folders.len(),
            w == partitions_of(folders@),
            total@ == partitioned(w.take(k as int), extension_set@),
        decreases folders.len() - k,
    {
        proof {
            assert(w.take(k + 1).drop_last() =~= w.take(k as int));
            assert(w.take(k + 1).last() == folders@[k as int]@);
        }
        total.scan_root_parts(&folders[k], &extension_set);
        k += 1;
    }
    assert(w.take(k as int) =~= w);
    total.finish()
}

} // verus!
