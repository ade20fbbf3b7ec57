use fast_filelist::dir_map::{DirectoryMap, Timestamp};
use fast_filelist::entry::{Entry, WalkItem};
use fast_filelist::scan::{scan_model_folders, scan_partitioned, Accumulator, Root, RootParts, RootWalk};
use fast_filelist::string_set::StringSet;

fn at(secs: u64) -> Timestamp {
    Timestamp { secs, nanos: 0 }
}

fn last_component(path: &str) -> String {
    path.rsplit('/').next().unwrap_or(path).to_string()
}

fn dir(root: &str, relative: &str, secs: u64) -> WalkItem {
    let path = if relative.is_empty() { root.to_string() } else { format!("{}/{}", root, relative) };
    let depth = if relative.is_empty() { 0 } else { relative.split('/').count() };
    WalkItem::Found(Entry {
        name: Some(last_component(&path)),
        path,
        extension: None,
        relative: Some(relative.to_string()),
        is_dir: true,
        depth,
        modified: Some(at(secs)),
    })
}

fn file(root: &str, relative: &str) -> WalkItem {
    let path = format!("{}/{}", root, relative);
    let name = last_component(&path);
    let extension = match name.rfind('.') {
        Some(0) | None => None,
        Some(i) => Some(name[i + 1..].to_string()),
    };
    WalkItem::Found(Entry {
        name: Some(name),
        path,
        extension,
        relative: Some(relative.to_string()),
        is_dir: false,
        depth: relative.split('/').count(),
        modified: None,
    })
}

fn root(folder: &str, secs: u64) -> Root {
    Root { folder: folder.to_string(), is_dir: true, modified: Some(at(secs)) }
}

fn strings(list: &[&str]) -> Vec<String> {
    list.iter().map(|s| s.to_string()).collect()
}

fn model_tree(folder: &str) -> Vec<WalkItem> {
    vec![
        dir(folder, "", 10),
        file(folder, "a.safetensors"),
        file(folder, "b.txt"),
        dir(folder, "models", 20),
        file(folder, "models/c.SAFETENSORS"),
        dir(folder, "skip", 30),
        file(folder, "skip/d.safetensors"),
    ]
}

fn records(dirs: &DirectoryMap) -> Vec<(String, Timestamp)> {
    dirs.keys().iter().cloned().zip(dirs.values().iter().cloned()).collect()
}

#[test]
fn scan_keeps_matching_files_and_prunes_excluded() {
    let folders = vec![RootWalk { root: root("/data/R", 10), items: model_tree("/data/R") }];
    let (files, dirs) =
        scan_model_folders(folders, strings(&[".safetensors"]), strings(&["skip"]));

    assert_eq!(files, strings(&["a.safetensors", "models/c.SAFETENSORS"]));
    assert!(dirs.contains_key("/data/R"));
    assert!(dirs.contains_key("/data/R/models"));
    assert!(!dirs.contains_key("/data/R/skip"));
    assert_eq!(dirs.len(), 2);
    assert_eq!(dirs.get("/data/R"), Some(at(10)));
    assert_eq!(dirs.get("/data/R/models"), Some(at(20)));
    assert_eq!(dirs.get("/data/R/skip"), None);
}

#[test]
fn scan_of_a_pruned_listing_gives_the_same_result() {
    let whole = vec![RootWalk { root: root("/data/R", 10), items: model_tree("/data/R") }];
    let mut pruned_items = model_tree("/data/R");
    pruned_items.truncate(5);
    let pruned = vec![RootWalk { root: root("/data/R", 10), items: pruned_items }];

    let a = scan_model_folders(whole, strings(&[".safetensors"]), strings(&["skip"]));
    let b = scan_model_folders(pruned, strings(&[".safetensors"]), strings(&["skip"]));
    assert_eq!(a.0, b.0);
    assert_eq!(records(&a.1), records(&b.1));
}

#[test]
fn parallel_and_sequential_strategies_agree() {
    let folder = "/data/R";
    let sequential = scan_model_folders(
        vec![RootWalk { root: root(folder, 10), items: model_tree(folder) }],
        strings(&[".safetensors"]),
        strings(&["skip"]),
    );

    // The items that the pruning traversal yields, dealt out to three
    // workers in an order of their own.
    let parts = vec![
        vec![file(folder, "models/c.SAFETENSORS"), dir(folder, "", 10)],
        vec![],
        vec![dir(folder, "models", 20), file(folder, "b.txt"), file(folder, "a.safetensors")],
    ];
    let parallel = scan_partitioned(
        vec![RootParts { root: root(folder, 10), parts }],
        strings(&[".safetensors"]),
    );

    assert_eq!(parallel.0, sequential.0);
    assert_eq!(records(&parallel.1), records(&sequential.1));
    assert_eq!(parallel.0, strings(&["a.safetensors", "models/c.SAFETENSORS"]));
}

#[test]
fn one_worker_with_everything_is_the_sequential_scan() {
    let folder = "/m";
    let items = vec![dir(folder, "", 1), dir(folder, "x", 2), file(folder, "x/y.bin")];
    let sequential = scan_model_folders(
        vec![RootWalk { root: root(folder, 1), items }],
        strings(&[]),
        strings(&[]),
    );
    let items = vec![dir(folder, "", 1), dir(folder, "x", 2), file(folder, "x/y.bin")];
    let parallel = scan_partitioned(
        vec![RootParts { root: root(folder, 1), parts: vec![items] }],
        strings(&[]),
    );
    assert_eq!(parallel.0, sequential.0);
    assert_eq!(records(&parallel.1), records(&sequential.1));
}

#[test]
fn file_list_is_sorted_and_without_duplicates() {
    let first = vec![
        dir("/one", "", 1),
        file("/one", "zeta.bin"),
        file("/one", "alpha.bin"),
        file("/one", "Beta.bin"),
        file("/one", "shared.bin"),
    ];
    let second = vec![
        dir("/two", "", 2),
        file("/two", "shared.bin"),
        file("/two", "alpha.bin"),
        file("/two", "middle.bin"),
    ];
    let folders = vec![
        RootWalk { root: root("/one", 1), items: first },
        RootWalk { root: root("/two", 2), items: second },
    ];
    let (files, dirs) = scan_model_folders(folders, strings(&[]), strings(&[]));

    assert_eq!(files, strings(&["Beta.bin", "alpha.bin", "middle.bin", "shared.bin", "zeta.bin"]));
    let mut sorted = files.clone();
    sorted.sort();
    sorted.dedup();
    assert_eq!(files, sorted);
    assert_eq!(dirs.keys(), &strings(&["/one", "/two"]));
}

#[test]
fn excluded_directory_and_its_descendants_are_absent() {
    let folder = "/r";
    let items = vec![
        dir(folder, "", 1),
        dir(folder, "keep", 2),
        dir(folder, "keep/cache", 3),
        file(folder, "keep/cache/x.bin"),
        dir(folder, "keep/cache/deep", 4),
        file(folder, "keep/cache/deep/y.bin"),
        file(folder, "keep/z.bin"),
        dir(folder, "cache", 5),
        dir(folder, "cache/inner", 6),
        file(folder, "cache/inner/w.bin"),
        file(folder, "top.bin"),
    ];
    let folders = vec![RootWalk { root: root(folder, 1), items }];
    let (files, dirs) = scan_model_folders(folders, strings(&[]), strings(&["cache"]));

    assert_eq!(files, strings(&["keep/z.bin", "top.bin"]));
    assert_eq!(dirs.keys(), &strings(&["/r", "/r/keep"]));
    assert!(!dirs.contains_key("/r/cache"));
    assert!(!dirs.contains_key("/r/cache/inner"));
    assert!(!dirs.contains_key("/r/keep/cache"));
    assert!(!dirs.contains_key("/r/keep/cache/deep"));
}

#[test]
fn a_file_named_like_an_excluded_directory_is_kept() {
    let folder = "/r";
    let items = vec![dir(folder, "", 1), file(folder, "skip"), file(folder, "sub.bin")];
    let folders = vec![RootWalk { root: root(folder, 1), items }];
    let (files, _) = scan_model_folders(folders, strings(&[]), strings(&["skip"]));
    assert_eq!(files, strings(&["skip", "sub.bin"]));
}

#[test]
fn a_root_with_an_excluded_name_is_recorded_but_not_walked() {
    let folder = "/data/skip";
    let items = vec![dir(folder, "", 7), file(folder, "a.bin"), dir(folder, "sub", 8)];
    let folders = vec![RootWalk { root: root(folder, 7), items }];
    let (files, dirs) = scan_model_folders(folders, strings(&[]), strings(&["skip"]));
    assert!(files.is_empty());
    assert_eq!(records(&dirs), vec![("/data/skip".to_string(), at(7))]);
}

#[test]
fn a_directory_with_an_undecodable_name_is_walked() {
    let folder = "/r";
    let odd = WalkItem::Found(Entry {
        path: "/r/\u{fffd}".to_string(),
        name: None,
        extension: None,
        relative: Some("\u{fffd}".to_string()),
        is_dir: true,
        depth: 1,
        modified: Some(at(2)),
    });
    let items = vec![dir(folder, "", 1), odd, file(folder, "\u{fffd}/a.bin")];
    let folders = vec![RootWalk { root: root(folder, 1), items }];
    let (files, dirs) = scan_model_folders(folders, strings(&[]), strings(&["\u{fffd}"]));
    assert_eq!(files, strings(&["\u{fffd}/a.bin"]));
    assert!(dirs.contains_key("/r/\u{fffd}"));
}

#[test]
fn extension_matching_ignores_case() {
    let folder = "/r";
    let items = vec![
        dir(folder, "", 1),
        file(folder, "X.SAFETENSORS"),
        file(folder, "y.SafeTensors"),
        file(folder, "z.safetensors"),
        file(folder, "n.ckpt"),
    ];
    let folders = vec![RootWalk { root: root(folder, 1), items }];
    let (files, _) = scan_model_folders(folders, strings(&[".safetensors"]), strings(&[]));
    assert_eq!(files, strings(&["X.SAFETENSORS", "y.SafeTensors", "z.safetensors"]));
}

#[test]
fn configured_extensions_are_matched_in_lower_case() {
    let folder = "/r";
    let items = vec![dir(folder, "", 1), file(folder, "a.ckpt"), file(folder, "b.PT"), file(folder, "c.bin")];
    let folders = vec![RootWalk { root: root(folder, 1), items }];
    let (files, _) = scan_model_folders(folders, strings(&[".CKPT", ".Pt"]), strings(&[]));
    assert_eq!(files, strings(&["a.ckpt", "b.PT"]));
}

#[test]
fn empty_extension_set_matches_every_file() {
    let folder = "/r";
    let items = vec![
        dir(folder, "", 1),
        file(folder, "a.safetensors"),
        file(folder, "b.txt"),
        file(folder, "noext"),
        file(folder, ".hidden"),
        file(folder, "odd."),
    ];
    let folders = vec![RootWalk { root: root(folder, 1), items }];
    let (files, _) = scan_model_folders(folders, strings(&[]), strings(&[]));
    assert_eq!(files, strings(&[".hidden", "a.safetensors", "b.txt", "noext", "odd."]));
}

#[test]
fn a_file_without_extension_matches_only_the_empty_extension() {
    let folder = "/r";
    let items = vec![dir(folder, "", 1), file(folder, "noext"), file(folder, "a.txt")];
    let folders = vec![RootWalk { root: root(folder, 1), items }];
    let (files, _) = scan_model_folders(folders, strings(&[".txt"]), strings(&[]));
    assert_eq!(files, strings(&["a.txt"]));

    let items = vec![dir(folder, "", 1), file(folder, "noext"), file(folder, "a.txt")];
    let folders = vec![RootWalk { root: root(folder, 1), items }];
    let (files, _) = scan_model_folders(folders, strings(&[""]), strings(&[]));
    assert_eq!(files, strings(&["noext"]));
}

#[test]
fn nonexistent_root_contributes_nothing() {
    let missing = RootWalk {
        root: Root { folder: "/nowhere".to_string(), is_dir: false, modified: None },
        items: vec![],
    };
    let (files, dirs) = scan_model_folders(vec![missing], strings(&[]), strings(&[]));
    assert!(files.is_empty());
    assert_eq!(dirs.len(), 0);

    // A root that is no directory is passed over even if something was
    // reported of it.
    let not_a_dir = RootWalk {
        root: Root { folder: "/r/file.bin".to_string(), is_dir: false, modified: Some(at(3)) },
        items: vec![file("/r", "file.bin")],
    };
    let present = RootWalk { root: root("/r", 1), items: vec![dir("/r", "", 1), file("/r", "a.bin")] };
    let with = scan_model_folders(vec![not_a_dir, present], strings(&[]), strings(&[]));
    let present = RootWalk { root: root("/r", 1), items: vec![dir("/r", "", 1), file("/r", "a.bin")] };
    let without = scan_model_folders(vec![present], strings(&[]), strings(&[]));
    assert_eq!(with.0, without.0);
    assert_eq!(records(&with.1), records(&without.1));
    assert_eq!(with.0, strings(&["a.bin"]));
}

#[test]
fn scanning_again_gives_the_same_result() {
    let scan = || {
        scan_model_folders(
            vec![
                RootWalk { root: root("/data/R", 10), items: model_tree("/data/R") },
                RootWalk { root: root("/data/S", 11), items: model_tree("/data/S") },
            ],
            strings(&[".safetensors", ".txt"]),
            strings(&["skip"]),
        )
    };
    let first = scan();
    let second = scan();
    assert_eq!(first.0, second.0);
    assert_eq!(first.1.keys(), second.1.keys());
    assert_eq!(first.0, strings(&["a.safetensors", "b.txt", "models/c.SAFETENSORS"]));
    assert_eq!(
        first.1.keys(),
        &strings(&["/data/R", "/data/R/models", "/data/S", "/data/S/models"])
    );
}

#[test]
fn the_root_is_keyed_by_the_string_given() {
    let items = vec![dir("./models/", "", 4), file("./models/", "a.bin")];
    let folders = vec![RootWalk {
        root: Root { folder: "./models/".to_string(), is_dir: true, modified: Some(at(4)) },
        items,
    }];
    let (_, dirs) = scan_model_folders(folders, strings(&[]), strings(&[]));
    assert_eq!(dirs.keys(), &strings(&["./models/"]));
}

#[test]
fn the_root_entry_of_a_traversal_is_not_recorded_again() {
    // The traversal reports the root under another spelling and time than
    // the scan recorded it with: only the scan's record stays.
    let top = WalkItem::Found(Entry {
        path: "/r/.".to_string(),
        name: Some(".".to_string()),
        extension: None,
        relative: Some(String::new()),
        is_dir: true,
        depth: 0,
        modified: Some(at(99)),
    });
    let folders = vec![RootWalk { root: root("/r", 1), items: vec![top] }];
    let (files, dirs) = scan_model_folders(folders, strings(&[]), strings(&[]));
    assert!(files.is_empty());
    assert_eq!(records(&dirs), vec![("/r".to_string(), at(1))]);
}

#[test]
fn a_directory_without_readable_time_is_walked_but_not_recorded() {
    let folder = "/r";
    let unreadable = WalkItem::Found(Entry {
        path: "/r/locked".to_string(),
        name: Some("locked".to_string()),
        extension: None,
        relative: Some("locked".to_string()),
        is_dir: true,
        depth: 1,
        modified: None,
    });
    let items = vec![dir(folder, "", 1), unreadable, file(folder, "locked/a.bin")];
    let folders = vec![RootWalk {
        root: Root { folder: folder.to_string(), is_dir: true, modified: None },
        items,
    }];
    let (files, dirs) = scan_model_folders(folders, strings(&[]), strings(&[]));
    assert_eq!(files, strings(&["locked/a.bin"]));
    assert_eq!(dirs.len(), 0);
}

#[test]
fn failed_items_are_passed_over() {
    let folder = "/r";
    let items = vec![
        dir(folder, "", 1),
        WalkItem::Failed { depth: 1 },
        file(folder, "a.bin"),
        dir(folder, "skip", 2),
        WalkItem::Failed { depth: 2 },
        file(folder, "skip/b.bin"),
        WalkItem::Failed { depth: 1 },
        file(folder, "c.bin"),
    ];
    let folders = vec![RootWalk { root: root(folder, 1), items }];
    let (files, dirs) = scan_model_folders(folders, strings(&[]), strings(&["skip"]));
    assert_eq!(files, strings(&["a.bin", "c.bin"]));
    assert_eq!(dirs.keys(), &strings(&["/r"]));
}

#[test]
fn a_file_outside_the_root_is_listed_by_its_full_path() {
    let stray = WalkItem::Found(Entry {
        path: "/elsewhere/a.bin".to_string(),
        name: Some("a.bin".to_string()),
        extension: Some("bin".to_string()),
        relative: None,
        is_dir: false,
        depth: 1,
        modified: None,
    });
    let folders = vec![RootWalk { root: root("/r", 1), items: vec![dir("/r", "", 1), stray] }];
    let (files, _) = scan_model_folders(folders, strings(&[".bin"]), strings(&[]));
    assert_eq!(files, strings(&["/elsewhere/a.bin"]));
}

#[test]
fn a_later_record_of_a_directory_replaces_an_earlier_one() {
    // The second root is also reached as a directory below the first.
    let first = vec![dir("/a", "", 1), dir("/a", "b", 2), file("/a", "b/x.bin")];
    let second = vec![dir("/a/b", "", 5), file("/a/b", "x.bin")];
    let folders = vec![
        RootWalk { root: root("/a", 1), items: first },
        RootWalk { root: root("/a/b", 5), items: second },
    ];
    let (files, dirs) = scan_model_folders(folders, strings(&[]), strings(&[]));
    assert_eq!(files, strings(&["b/x.bin", "x.bin"]));
    assert_eq!(records(&dirs), vec![("/a".to_string(), at(1)), ("/a/b".to_string(), at(5))]);
}

#[test]
fn accumulator_records_item_by_item() {
    let extensions = StringSet::from_vec(strings(&[".bin"]));
    let mut acc = Accumulator::new();
    acc.record(&dir("/r", "", 1), &extensions);
    assert_eq!(acc.dirs.len(), 0);
    acc.record(&dir("/r", "sub", 2), &extensions);
    acc.record(&file("/r", "sub/a.bin"), &extensions);
    acc.record(&file("/r", "sub/b.txt"), &extensions);
    acc.record(&WalkItem::Failed { depth: 3 }, &extensions);
    assert_eq!(acc.files.as_sorted(), &strings(&["sub/a.bin"]));
    assert_eq!(records(&acc.dirs), vec![("/r/sub".to_string(), at(2))]);
}

#[test]
fn accumulator_enters_roots() {
    let mut acc = Accumulator::new();
    assert!(acc.enter_root(&root("/r", 3)));
    assert!(!acc.enter_root(&Root { folder: "/gone".to_string(), is_dir: false, modified: Some(at(4)) }));
    assert!(acc.enter_root(&Root { folder: "/dark".to_string(), is_dir: true, modified: None }));
    assert_eq!(records(&acc.dirs), vec![("/r".to_string(), at(3))]);
}

#[test]
fn merging_is_union_with_the_right_time_kept() {
    let extensions = StringSet::new();
    let mut left = Accumulator::new();
    left.record_all(&vec![dir("/r", "a", 1), dir("/r", "b", 2), file("/r", "x"), file("/r", "y")], &extensions);
    let mut right = Accumulator::new();
    right.record_all(&vec![dir("/r", "b", 20), dir("/r", "c", 30), file("/r", "y"), file("/r", "z")], &extensions);
    left.merge(right);
    let (files, dirs) = left.finish();
    assert_eq!(files, strings(&["x", "y", "z"]));
    assert_eq!(
        records(&dirs),
        vec![("/r/a".to_string(), at(1)), ("/r/b".to_string(), at(20)), ("/r/c".to_string(), at(30))]
    );
}

#[test]
fn merging_may_be_grouped_either_way() {
    let extensions = StringSet::new();
    let part = |items: Vec<WalkItem>| {
        let mut acc = Accumulator::new();
        acc.record_all(&items, &extensions);
        acc
    };
    let a = || part(vec![dir("/r", "a", 1), file("/r", "x")]);
    let b = || part(vec![dir("/r", "a", 2), dir("/r", "b", 2), file("/r", "y")]);
    let c = || part(vec![dir("/r", "b", 3), file("/r", "x"), file("/r", "z")]);

    let mut left = a();
    left.merge(b());
    left.merge(c());

    let mut tail = b();
    tail.merge(c());
    let mut right = a();
    right.merge(tail);

    let left = left.finish();
    let right = right.finish();
    assert_eq!(left.0, right.0);
    assert_eq!(records(&left.1), records(&right.1));
    assert_eq!(records(&left.1), vec![("/r/a".to_string(), at(2)), ("/r/b".to_string(), at(3))]);
}

#[test]
fn reduce_folds_each_part_and_merges() {
    let extensions = StringSet::from_vec(strings(&[".bin"]));
    let parts = vec![
        vec![file("/r", "b.bin"), dir("/r", "d", 1)],
        vec![file("/r", "a.bin"), file("/r", "c.txt")],
        vec![dir("/r", "d", 9), file("/r", "b.bin")],
    ];
    let (files, dirs) = Accumulator::reduce(&parts, &extensions).finish();
    assert_eq!(files, strings(&["a.bin", "b.bin"]));
    assert_eq!(records(&dirs), vec![("/r/d".to_string(), at(9))]);
}
