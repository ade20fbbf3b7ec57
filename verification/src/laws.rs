//! What holds of every scan: the laws of merging, the agreement of the two
//! strategies, the reach of pruning, and where each part of a result comes
//! from.

use vstd::prelude::*;
use crate::dir_map::Timestamp;
use crate::entry::{extension_of, keeps, listed_path, lowercase_of, ItemView};
use crate::order::{lemma_ascending_listing_unique, lemma_ascending_no_duplicates, strictly_ascending};
use crate::scan::{beneath, empty_scan, entered, merged, partitioned, partitioned_root, recorded, recorded_all, records_dir, records_file, reduced, scanned, scanned_root, surviving, turned_away, visited, visited_prefix};
use crate::scan::{RootPartsView, RootWalkView, ScanView};

verus! {

/// Merging is associative: partial results may be merged in any grouping.
pub proof fn lemma_merge_associative(a: ScanView, b: ScanView, c: ScanView)
    ensures
        merged(merged(a, b), c) == merged(a, merged(b, c)),
{
    let x = merged(merged(a, b), c);
    let y = merged(a, merged(b, c));
    assert(x.files =~= y.files);
    assert(x.dirs =~= y.dirs);
}

/// The empty result is neutral for merging.
pub proof fn lemma_merge_empty(a: ScanView)
    ensures
        merged(a, empty_scan()) == a,
        merged(empty_scan(), a) == a,
{
    assert(merged(a, empty_scan()).files =~= a.files);
    assert(merged(a, empty_scan()).dirs =~= a.dirs);
    assert(merged(empty_scan(), a).files =~= a.files);
    assert(merged(empty_scan(), a).dirs =~= a.dirs);
}

/// Merging a result with itself changes nothing.
pub proof fn lemma_merge_idempotent(a: ScanView)
    ensures
        merged(a, a) == a,
{
    assert(merged(a, a).files =~= a.files);
    assert(merged(a, a).dirs =~= a.dirs);
}

/// Merging is commutative where the two results record the same time for
/// every directory that both hold.
pub proof fn lemma_merge_commutative(a: ScanView, b: ScanView)
    requires
        a.dirs.agrees(b.dirs),
    ensures
        merged(a, b) == merged(b, a),
{
    assert(merged(a, b).files =~= merged(b, a).files);
    assert(merged(a, b).dirs =~= merged(b, a).dirs);
}

/// Recording one item is merging in what the item alone contributes.
pub proof fn lemma_recorded_is_merge(acc: ScanView, item: ItemView, extensions: Set<Seq<char>>)
    ensures
        recorded(acc, item, extensions) == merged(acc, recorded(empty_scan(), item, extensions)),
{
    let x = recorded(acc, item, extensions);
    let y = merged(acc, recorded(empty_scan(), item, extensions));
    assert(x.files =~= y.files);
    assert(x.dirs =~= y.dirs);
}

/// Recording a stream of items is merging in what the stream alone
/// contributes: a worker may start from the empty result.
pub proof fn lemma_recorded_all_is_merge(
    acc: ScanView,
    items: Seq<ItemView>,
    extensions: Set<Seq<char>>,
)
    ensures
        recorded_all(acc, items, extensions) == merged(
            acc,
            recorded_all(empty_scan(), items, extensions),
        ),
    decreases items.len(),
{
    if items.len() == 0 {
        lemma_merge_empty(acc);
    } else {
        let init = items.drop_last();
        let alone = recorded_all(empty_scan(), init, extensions);
        let one = recorded(empty_scan(), items.last(), extensions);
        lemma_recorded_all_is_merge(acc, init, extensions);
        lemma_recorded_is_merge(recorded_all(acc, init, extensions), items.last(), extensions);
        lemma_merge_associative(acc, alone, one);
        lemma_recorded_is_merge(alone, items.last(), extensions);
    }
}

/// Recording two streams one after the other is recording their
/// concatenation.
pub proof fn lemma_recorded_all_concat(
    acc: ScanView,
    a: Seq<ItemView>,
    b: Seq<ItemView>,
    extensions: Set<Seq<char>>,
)
    ensures
        recorded_all(acc, a + b, extensions) == recorded_all(
            recorded_all(acc, a, extensions),
            b,
            extensions,
        ),
    decreases b.len(),
{
    if b.len() == 0 {
        assert(a + b =~= a);
    } else {
        assert((a + b).drop_last() =~= a + b.drop_last());
        lemma_recorded_all_concat(acc, a, b.drop_last(), extensions);
    }
}

/// The parts of a traversal put one after the other.
pub open spec fn concat_all(parts: Seq<Seq<ItemView>>) -> Seq<ItemView>
    decreases parts.len(),
{
    if parts.len() == 0 {
        Seq::empty()
    } else {
        concat_all(parts.drop_last()) + parts.last()
    }
}

/// Folding the parts separately and merging the partial results gives what
/// one fold over all the parts gives.
pub proof fn lemma_reduced_is_one_fold(parts: Seq<Seq<ItemView>>, extensions: Set<Seq<char>>)
    ensures
        reduced(parts, extensions) == recorded_all(empty_scan(), concat_all(parts), extensions),
    decreases parts.len(),
{
    if parts.len() > 0 {
        let init = parts.drop_last();
        lemma_reduced_is_one_fold(init, extensions);
        lemma_recorded_all_is_merge(
            recorded_all(empty_scan(), concat_all(init), extensions),
            parts.last(),
            extensions,
        );
        lemma_recorded_all_concat(empty_scan(), concat_all(init), parts.last(), extensions);
    }
}

/// Item `i` of the stream puts the file `path` into the file set.
pub open spec fn lists_file(
    items: Seq<ItemView>,
    extensions: Set<Seq<char>>,
    path: Seq<char>,
    i: int,
) -> bool {
    0 <= i < items.len() && records_file(items[i], extensions) && listed_path(items[i].entry())
        == path
}

/// Item `i` of the stream puts the directory `path` into the directory map.
pub open spec fn lists_dir(items: Seq<ItemView>, path: Seq<char>, i: int) -> bool {
    0 <= i < items.len() && records_dir(items[i]) && items[i].entry().path == path
}

/// No directory is reported with two different modification times.
pub open spec fn times_agree(items: Seq<ItemView>) -> bool {
    forall|i: int, j: int|
        0 <= i < items.len() && 0 <= j < items.len() && records_dir(#[trigger] items[i])
            && records_dir(#[trigger] items[j]) && items[i].entry().path == items[j].entry().path
            ==> items[i].entry().modified == items[j].entry().modified
}

/// A file is in the result of a stream exactly if some item of the stream
/// puts it there.
pub proof fn lemma_stream_files(items: Seq<ItemView>, extensions: Set<Seq<char>>, path: Seq<char>)
    ensures
        recorded_all(empty_scan(), items, extensions).files.contains(path) <==> exists|i: int|
            lists_file(items, extensions, path, i),
    decreases items.len(),
{
    if items.len() > 0 {
        let init = items.drop_last();
        let last = items.len() - 1;
        lemma_stream_files(init, extensions, path);
        if recorded_all(empty_scan(), init, extensions).files.contains(path) {
            let i = choose|i: int| lists_file(init, extensions, path, i);
            assert(lists_file(items, extensions, path, i));
        }
        if lists_file(items, extensions, path, last) {
            assert(recorded_all(empty_scan(), items, extensions).files.contains(path));
        }
        if exists|i: int| lists_file(items, extensions, path, i) {
            let i = choose|i: int| lists_file(items, extensions, path, i);
            if i < last {
                assert(lists_file(init, extensions, path, i));
            }
        }
    }
}

/// A directory is in the result of a stream exactly if some item of the
/// stream puts it there.
pub proof fn lemma_stream_dirs(items: Seq<ItemView>, extensions: Set<Seq<char>>, path: Seq<char>)
    ensures
        recorded_all(empty_scan(), items, extensions).dirs.dom().contains(path) <==> exists|i: int|
            lists_dir(items, path, i),
    decreases items.len(),
{
    if items.len() > 0 {
        let init = items.drop_last();
        let last = items.len() - 1;
        lemma_stream_dirs(init, extensions, path);
        if recorded_all(empty_scan(), init, extensions).dirs.dom().contains(path) {
            let i = choose|i: int| lists_dir(init, path, i);
            assert(lists_dir(items, path, i));
        }
        if lists_dir(items, path, last) {
            assert(recorded_all(empty_scan(), items, extensions).dirs.dom().contains(path));
        }
        if exists|i: int| lists_dir(items, path, i) {
            let i = choose|i: int| lists_dir(items, path, i);
            if i < last {
                assert(lists_dir(init, path, i));
            }
        }
    }
}

/// Where no directory is reported with two times, the result of a stream
/// holds for each directory the time of any item that reports it.
pub proof fn lemma_stream_times(items: Seq<ItemView>, extensions: Set<Seq<char>>, i: int)
    requires
        times_agree(items),
        0 <= i < items.len(),
        records_dir(items[i]),
    ensures
        recorded_all(empty_scan(), items, extensions).dirs.dom().contains(items[i].entry().path),
        recorded_all(empty_scan(), items, extensions).dirs[items[i].entry().path]
            == items[i].entry().modified->0,
    decreases items.len(),
{
    let init = items.drop_last();
    let last = items.len() - 1;
    if i < last {
        assert(times_agree(init)) by {
            assert forall|a: int, b: int|
                0 <= a < init.len() && 0 <= b < init.len() && records_dir(#[trigger] init[a])
                    && records_dir(#[trigger] init[b]) && init[a].entry().path
                    == init[b].entry().path implies init[a].entry().modified
                == init[b].entry().modified by {
                assert(init[a] == items[a] && init[b] == items[b]);
            }
        }
        assert(init[i] == items[i]);
        lemma_stream_times(init, extensions, i);
        assert(items[last] == items.last());
    }
}

/// The result of a stream does not depend on the order of its items, where
/// no directory is reported with two times: however the items reach the
/// workers, the same result comes out.
pub proof fn lemma_order_is_immaterial(
    a: Seq<ItemView>,
    b: Seq<ItemView>,
    extensions: Set<Seq<char>>,
)
    requires
        a.to_multiset() == b.to_multiset(),
        times_agree(a),
    ensures
        recorded_all(empty_scan(), a, extensions) == recorded_all(empty_scan(), b, extensions),
{
    a.to_multiset_ensures();
    b.to_multiset_ensures();
    assert forall|x: ItemView| a.contains(x) == b.contains(x) by {
        assert(a.contains(x) <==> a.to_multiset().count(x) > 0);
        assert(b.contains(x) <==> b.to_multiset().count(x) > 0);
    }
    lemma_same_items_same_result(a, b, extensions);
}

/// Two streams that hold the same items, in whatever order and however
/// often, give the same result where no directory is reported with two
/// times.
pub proof fn lemma_same_items_same_result(
    a: Seq<ItemView>,
    b: Seq<ItemView>,
    extensions: Set<Seq<char>>,
)
    requires
        forall|x: ItemView| a.contains(x) == b.contains(x),
        times_agree(a),
    ensures
        recorded_all(empty_scan(), a, extensions) == recorded_all(empty_scan(), b, extensions),
{
    let ra = recorded_all(empty_scan(), a, extensions);
    let rb = recorded_all(empty_scan(), b, extensions);
    assert(times_agree(b)) by {
        assert forall|i: int, j: int|
            0 <= i < b.len() && 0 <= j < b.len() && records_dir(#[trigger] b[i]) && records_dir(
                #[trigger] b[j],
            ) && b[i].entry().path == b[j].entry().path implies b[i].entry().modified
            == b[j].entry().modified by {
            assert(b.contains(b[i]) && b.contains(b[j]));
            assert(a.contains(b[i]) && a.contains(b[j]));
            let i2 = choose|k: int| 0 <= k < a.len() && a[k] == b[i];
            let j2 = choose|k: int| 0 <= k < a.len() && a[k] == b[j];
            assert(a[i2].entry().modified == a[j2].entry().modified);
        }
    }
    assert forall|p: Seq<char>| ra.files.contains(p) == rb.files.contains(p) by {
        lemma_stream_files(a, extensions, p);
        lemma_stream_files(b, extensions, p);
        if ra.files.contains(p) {
            let i = choose|i: int| lists_file(a, extensions, p, i);
            assert(a.contains(a[i]));
            let j = choose|j: int| 0 <= j < b.len() && b[j] == a[i];
            assert(lists_file(b, extensions, p, j));
        }
        if rb.files.contains(p) {
            let i = choose|i: int| lists_file(b, extensions, p, i);
            assert(b.contains(b[i]));
            let j = choose|j: int| 0 <= j < a.len() && a[j] == b[i];
            assert(lists_file(a, extensions, p, j));
        }
    }
    assert forall|p: Seq<char>| ra.dirs.dom().contains(p) == rb.dirs.dom().contains(p) by {
        lemma_stream_dirs(a, extensions, p);
        lemma_stream_dirs(b, extensions, p);
        if ra.dirs.dom().contains(p) {
            let i = choose|i: int| lists_dir(a, p, i);
            assert(a.contains(a[i]));
            let j = choose|j: int| 0 <= j < b.len() && b[j] == a[i];
            assert(lists_dir(b, p, j));
        }
        if rb.dirs.dom().contains(p) {
            let i = choose|i: int| lists_dir(b, p, i);
            assert(b.contains(b[i]));
            let j = choose|j: int| 0 <= j < a.len() && a[j] == b[i];
            assert(lists_dir(a, p, j));
        }
    }
    assert forall|p: Seq<char>| ra.dirs.dom().contains(p) implies ra.dirs[p] == rb.dirs[p] by {
        lemma_stream_dirs(a, extensions, p);
        let i = choose|i: int| lists_dir(a, p, i);
        assert(a.contains(a[i]));
        let j = choose|j: int| 0 <= j < b.len() && b[j] == a[i];
        lemma_stream_times(a, extensions, i);
        lemma_stream_times(b, extensions, j);
    }
    assert(ra.files =~= rb.files);
    assert(ra.dirs =~= rb.dirs);
}

/// The two forms of a root describe one traversal: the same root, the parts
/// holding between them exactly the items that the pruning traversal
/// visits, in whatever order, and no directory reported with two times.
pub open spec fn same_traversal(
    walk: RootWalkView,
    parts: RootPartsView,
    excluded: Set<Seq<char>>,
) -> bool {
    &&& walk.root == parts.root
    &&& concat_all(parts.parts).to_multiset() == surviving(walk.items, excluded).to_multiset()
    &&& times_agree(surviving(walk.items, excluded))
}

/// For one root the partitioned scan and the sequential scan give the same
/// result.
pub proof fn lemma_root_strategies_agree(
    acc: ScanView,
    walk: RootWalkView,
    parts: RootPartsView,
    extensions: Set<Seq<char>>,
    excluded: Set<Seq<char>>,
)
    requires
        same_traversal(walk, parts, excluded),
    ensures
        partitioned_root(acc, parts, extensions) == scanned_root(acc, walk, extensions, excluded),
{
    if walk.root.is_dir {
        let visited_items = surviving(walk.items, excluded);
        lemma_recorded_all_is_merge(entered(acc, walk.root), visited_items, extensions);
        lemma_reduced_is_one_fold(parts.parts, extensions);
        lemma_order_is_immaterial(visited_items, concat_all(parts.parts), extensions);
    }
}

/// The parallel and the sequential strategy give the same file set and the
/// same directory map on the same traversals, however the items of each
/// traversal were dealt out to the workers.
pub proof fn lemma_strategies_agree(
    walks: Seq<RootWalkView>,
    parts: Seq<RootPartsView>,
    extensions: Set<Seq<char>>,
    excluded: Set<Seq<char>>,
)
    requires
        walks.len() == parts.len(),
        forall|k: int| 0 <= k < walks.len() ==> same_traversal(walks[k], #[trigger] parts[k], excluded),
    ensures
        partitioned(parts, extensions) == scanned(walks, extensions, excluded),
    decreases walks.len(),
{
    if walks.len() > 0 {
        let last = walks.len() - 1;
        assert(same_traversal(walks[last], parts[last], excluded));
        assert forall|k: int| 0 <= k < walks.drop_last().len() implies same_traversal(
            walks.drop_last()[k],
            #[trigger] parts.drop_last()[k],
            excluded,
        ) by {
            assert(same_traversal(walks[k], parts[k], excluded));
        }
        lemma_strategies_agree(walks.drop_last(), parts.drop_last(), extensions, excluded);
        lemma_root_strategies_agree(
            partitioned(parts.drop_last(), extensions),
            walks.last(),
            parts.last(),
            extensions,
            excluded,
        );
    }
}

/// The two strategies return the same sorted file list and the same
/// directory map: lists and maps that meet the contracts of the two scans
/// are equal.
pub proof fn lemma_strategy_outputs_agree(
    walks: Seq<RootWalkView>,
    parts: Seq<RootPartsView>,
    extensions: Set<Seq<char>>,
    excluded: Set<Seq<char>>,
    sequential: (Seq<Seq<char>>, Map<Seq<char>, Timestamp>),
    parallel: (Seq<Seq<char>>, Map<Seq<char>, Timestamp>),
)
    requires
        walks.len() == parts.len(),
        forall|k: int| 0 <= k < walks.len() ==> same_traversal(walks[k], #[trigger] parts[k], excluded),
        strictly_ascending(sequential.0),
        sequential.0.to_set() == scanned(walks, extensions, excluded).files,
        sequential.1 == scanned(walks, extensions, excluded).dirs,
        strictly_ascending(parallel.0),
        parallel.0.to_set() == partitioned(parts, extensions).files,
        parallel.1 == partitioned(parts, extensions).dirs,
    ensures
        sequential == parallel,
{
    lemma_strategies_agree(walks, parts, extensions, excluded);
    lemma_ascending_listing_unique(sequential.0, parallel.0);
}

/// Item `j` of a depth-first listing is pruned: it is an excluded directory
/// or lies beneath one.
pub open spec fn pruned(items: Seq<ItemView>, excluded: Set<Seq<char>>, j: int) -> bool {
    exists|i: int|
        0 <= i <= j && turned_away(#[trigger] items[i], excluded) && (i == j || beneath(
            items,
            i,
            j,
        ))
}

/// A pruning traversal visits exactly the items that are not pruned.
pub proof fn lemma_visited_unless_pruned(items: Seq<ItemView>, excluded: Set<Seq<char>>, j: int)
    requires
        0 <= j < items.len(),
    ensures
        visited(items, excluded, j) == !pruned(items, excluded, j),
{
    if pruned(items, excluded, j) {
        let i = choose|i: int|
            0 <= i <= j && turned_away(#[trigger] items[i], excluded) && (i == j || beneath(
                items,
                i,
                j,
            ));
        assert(!visited(items, excluded, j));
    } else if !visited(items, excluded, j) {
        if turned_away(items[j], excluded) {
            assert(pruned(items, excluded, j));
        } else {
            let i = choose|i: int|
                0 <= i < j && turned_away(#[trigger] items[i], excluded) && beneath(items, i, j);
            assert(pruned(items, excluded, j));
        }
    }
}

/// A pruning traversal visits neither an excluded directory nor anything
/// that lies beneath one.
pub proof fn lemma_excluded_subtree_not_visited(
    items: Seq<ItemView>,
    excluded: Set<Seq<char>>,
    i: int,
    j: int,
)
    requires
        0 <= i < items.len(),
        turned_away(items[i], excluded),
        j == i || beneath(items, i, j),
    ensures
        !visited(items, excluded, j),
{
}

/// An item is among those visited exactly if the pruning traversal visits
/// it at some place of the listing.
pub proof fn lemma_visited_items(
    items: Seq<ItemView>,
    excluded: Set<Seq<char>>,
    n: int,
    x: ItemView,
)
    requires
        0 <= n <= items.len(),
    ensures
        visited_prefix(items, excluded, n).contains(x) <==> exists|j: int|
            0 <= j < n && #[trigger] visited(items, excluded, j) && items[j] == x,
    decreases n,
{
    if n > 0 {
        lemma_visited_items(items, excluded, n - 1, x);
        let before = visited_prefix(items, excluded, n - 1);
        let now = visited_prefix(items, excluded, n);
        if before.contains(x) {
            let i = choose|i: int| 0 <= i < before.len() && before[i] == x;
            assert(now[i] == x);
        }
        if visited(items, excluded, n - 1) && items[n - 1] == x {
            assert(now[now.len() - 1] == x);
        }
        if now.contains(x) {
            let i = choose|i: int| 0 <= i < now.len() && now[i] == x;
            if i < before.len() {
                assert(before[i] == x);
            }
        }
    }
}

/// The file `path` comes from item `j` of root `k`: the root is a directory,
/// the pruning traversal visits the item, and the item puts the file into
/// the file set.
pub open spec fn file_origin(
    roots: Seq<RootWalkView>,
    extensions: Set<Seq<char>>,
    excluded: Set<Seq<char>>,
    path: Seq<char>,
    k: int,
    j: int,
) -> bool {
    &&& 0 <= k < roots.len()
    &&& roots[k].root.is_dir
    &&& 0 <= j < roots[k].items.len()
    &&& visited(roots[k].items, excluded, j)
    &&& lists_file(roots[k].items, extensions, path, j)
}

/// The directory `path` comes from item `j` of root `k`: the root is a
/// directory, the pruning traversal visits the item, and the item puts the
/// directory into the directory map.
pub open spec fn dir_origin(
    roots: Seq<RootWalkView>,
    excluded: Set<Seq<char>>,
    path: Seq<char>,
    k: int,
    j: int,
) -> bool {
    &&& 0 <= k < roots.len()
    &&& roots[k].root.is_dir
    &&& 0 <= j < roots[k].items.len()
    &&& visited(roots[k].items, excluded, j)
    &&& lists_dir(roots[k].items, path, j)
}

/// The directory `path` is root `k`, recorded under the name the caller
/// gave it.
pub open spec fn root_origin(roots: Seq<RootWalkView>, path: Seq<char>, k: int) -> bool {
    &&& 0 <= k < roots.len()
    &&& roots[k].root.is_dir
    &&& roots[k].root.modified is Some
    &&& roots[k].root.folder == path
}

/// A file is listed exactly if a visited item of some root puts it there:
/// nothing that lies in an excluded subtree reaches the file list.
pub proof fn lemma_files_come_from_visited(
    roots: Seq<RootWalkView>,
    extensions: Set<Seq<char>>,
    excluded: Set<Seq<char>>,
    path: Seq<char>,
)
    ensures
        scanned(roots, extensions, excluded).files.contains(path) <==> exists|k: int, j: int|
            file_origin(roots, extensions, excluded, path, k, j),
    decreases roots.len(),
{
    if roots.len() > 0 {
        let init = roots.drop_last();
        let last = roots.len() - 1;
        let walk = roots.last();
        let acc = scanned(init, extensions, excluded);
        let kept = surviving(walk.items, excluded);
        lemma_files_come_from_visited(init, extensions, excluded, path);
        if acc.files.contains(path) {
            let (k, j) = choose|k: int, j: int|
                file_origin(init, extensions, excluded, path, k, j);
            assert(file_origin(roots, extensions, excluded, path, k, j));
        }
        if walk.root.is_dir {
            lemma_recorded_all_is_merge(entered(acc, walk.root), kept, extensions);
            lemma_stream_files(kept, extensions, path);
            if recorded_all(empty_scan(), kept, extensions).files.contains(path) {
                let i = choose|i: int| lists_file(kept, extensions, path, i);
                assert(kept.contains(kept[i]));
                lemma_visited_items(walk.items, excluded, walk.items.len() as int, kept[i]);
                let j = choose|j: int|
                    0 <= j < walk.items.len() && #[trigger] visited(walk.items, excluded, j)
                        && walk.items[j] == kept[i];
                assert(file_origin(roots, extensions, excluded, path, last, j));
            }
        }
        if exists|k: int, j: int| file_origin(roots, extensions, excluded, path, k, j) {
            let (k, j) = choose|k: int, j: int|
                file_origin(roots, extensions, excluded, path, k, j);
            if k < last {
                assert(file_origin(init, extensions, excluded, path, k, j));
            } else {
                lemma_visited_items(walk.items, excluded, walk.items.len() as int, walk.items[j]);
                let i = choose|i: int| 0 <= i < kept.len() && kept[i] == walk.items[j];
                assert(lists_file(kept, extensions, path, i));
            }
        }
    }
}

/// A directory is in the map exactly if it is a root that was recorded or a
/// visited item of some root puts it there: an excluded directory below a
/// root, and whatever lies beneath one, reaches the map through no item.
pub proof fn lemma_dirs_come_from_visited(
    roots: Seq<RootWalkView>,
    extensions: Set<Seq<char>>,
    excluded: Set<Seq<char>>,
    path: Seq<char>,
)
    ensures
        scanned(roots, extensions, excluded).dirs.dom().contains(path) <==> (exists|k: int|
            root_origin(roots, path, k)) || (exists|k: int, j: int|
            dir_origin(roots, excluded, path, k, j)),
    decreases roots.len(),
{
    if roots.len() > 0 {
        let init = roots.drop_last();
        let last = roots.len() - 1;
        let walk = roots.last();
        let acc = scanned(init, extensions, excluded);
        let kept = surviving(walk.items, excluded);
        lemma_dirs_come_from_visited(init, extensions, excluded, path);
        if acc.dirs.dom().contains(path) {
            if exists|k: int| root_origin(init, path, k) {
                let k = choose|k: int| root_origin(init, path, k);
                assert(root_origin(roots, path, k));
            } else {
                let (k, j) = choose|k: int, j: int| dir_origin(init, excluded, path, k, j);
                assert(dir_origin(roots, excluded, path, k, j));
            }
        }
        if walk.root.is_dir {
            lemma_recorded_all_is_merge(entered(acc, walk.root), kept, extensions);
            lemma_stream_dirs(kept, extensions, path);
            if recorded_all(empty_scan(), kept, extensions).dirs.dom().contains(path) {
                let i = choose|i: int| lists_dir(kept, path, i);
                assert(kept.contains(kept[i]));
                lemma_visited_items(walk.items, excluded, walk.items.len() as int, kept[i]);
                let j = choose|j: int|
                    0 <= j < walk.items.len() && #[trigger] visited(walk.items, excluded, j)
                        && walk.items[j] == kept[i];
                assert(dir_origin(roots, excluded, path, last, j));
            }
            if walk.root.modified is Some && walk.root.folder == path {
                assert(root_origin(roots, path, last));
            }
        }
        if exists|k: int| root_origin(roots, path, k) {
            let k = choose|k: int| root_origin(roots, path, k);
            if k < last {
                assert(root_origin(init, path, k));
            }
        }
        if exists|k: int, j: int| dir_origin(roots, excluded, path, k, j) {
            let (k, j) = choose|k: int, j: int| dir_origin(roots, excluded, path, k, j);
            if k < last {
                assert(dir_origin(init, excluded, path, k, j));
            } else {
                lemma_visited_items(walk.items, excluded, walk.items.len() as int, walk.items[j]);
                let i = choose|i: int| 0 <= i < kept.len() && kept[i] == walk.items[j];
                assert(lists_dir(kept, path, i));
            }
        }
    }
}

/// A directory that is no recorded root, and that only pruned items report,
/// is not in the directory map: an excluded directory below a root is never
/// a key of the map, and neither is a directory beneath one.
pub proof fn lemma_pruned_directory_absent(
    roots: Seq<RootWalkView>,
    extensions: Set<Seq<char>>,
    excluded: Set<Seq<char>>,
    path: Seq<char>,
)
    requires
        forall|k: int| !root_origin(roots, path, k),
        forall|k: int, j: int|
            0 <= k < roots.len() && #[trigger] lists_dir(roots[k].items, path, j) ==> pruned(
                roots[k].items,
                excluded,
                j,
            ),
    ensures
        !scanned(roots, extensions, excluded).dirs.dom().contains(path),
{
    lemma_dirs_come_from_visited(roots, extensions, excluded, path);
    if exists|k: int, j: int| dir_origin(roots, excluded, path, k, j) {
        let (k, j) = choose|k: int, j: int| dir_origin(roots, excluded, path, k, j);
        assert(lists_dir(roots[k].items, path, j));
        lemma_visited_unless_pruned(roots[k].items, excluded, j);
    }
}

/// A file that only pruned items report is not in the file list: nothing
/// beneath an excluded directory is listed.
pub proof fn lemma_pruned_file_absent(
    roots: Seq<RootWalkView>,
    extensions: Set<Seq<char>>,
    excluded: Set<Seq<char>>,
    path: Seq<char>,
)
    requires
        forall|k: int, j: int|
            0 <= k < roots.len() && #[trigger] lists_file(roots[k].items, extensions, path, j)
                ==> pruned(roots[k].items, excluded, j),
    ensures
        !scanned(roots, extensions, excluded).files.contains(path),
{
    lemma_files_come_from_visited(roots, extensions, excluded, path);
    if exists|k: int, j: int| file_origin(roots, extensions, excluded, path, k, j) {
        let (k, j) = choose|k: int, j: int| file_origin(roots, extensions, excluded, path, k, j);
        assert(lists_file(roots[k].items, extensions, path, j));
        lemma_visited_unless_pruned(roots[k].items, excluded, j);
    }
}

/// Matching does not look at the case of a file's extension: two raw
/// extensions with the same lower-case form are kept by the same sets.
pub proof fn lemma_matching_ignores_case(
    a: Seq<char>,
    b: Seq<char>,
    extensions: Set<Seq<char>>,
)
    ensures
        lowercase_of(a) == lowercase_of(b) ==> keeps(extensions, extension_of(Some(a))) == keeps(
            extensions,
            extension_of(Some(b)),
        ),
{
}

/// The empty extension set keeps every file, whatever its extension.
pub proof fn lemma_empty_set_keeps_all(ext: Seq<char>)
    ensures
        keeps(Set::<Seq<char>>::empty(), ext),
{
}

/// A root folder that does not exist, or is no directory, contributes
/// nothing: the result is that of the scan without it.
pub proof fn lemma_missing_root_contributes_nothing(
    roots: Seq<RootWalkView>,
    k: int,
    missing: RootWalkView,
    extensions: Set<Seq<char>>,
    excluded: Set<Seq<char>>,
)
    requires
        0 <= k <= roots.len(),
        !missing.root.is_dir,
    ensures
        scanned(roots.insert(k, missing), extensions, excluded) == scanned(
            roots,
            extensions,
            excluded,
        ),
    decreases roots.len() - k,
{
    let with = roots.insert(k, missing);
    if k == roots.len() {
        assert(with.drop_last() =~= roots);
    } else {
        assert(with.drop_last() =~= roots.drop_last().insert(k, missing));
        assert(with.last() == roots.last());
        lemma_missing_root_contributes_nothing(
            roots.drop_last(),
            k,
            missing,
            extensions,
            excluded,
        );
    }
}

/// A sorted file list holds no path twice, and the file set has no other
/// sorted list: scanning the same traversals again returns the same list,
/// item for item.
pub proof fn lemma_file_list_determined(first: Seq<Seq<char>>, second: Seq<Seq<char>>)
    requires
        strictly_ascending(first),
        strictly_ascending(second),
        first.to_set() == second.to_set(),
    ensures
        first == second,
        first.no_duplicates(),
{
    lemma_ascending_listing_unique(first, second);
    lemma_ascending_no_duplicates(first);
}

} // verus!
