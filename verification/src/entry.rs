//! What a traversal reports of one file-system entry, and the two filters
//! that work on it: the traversal filter and the extension matcher.

use vstd::prelude::*;
use vstd::string::StringExecFns;
use crate::dir_map::Timestamp;
use crate::string_set::{lemma_to_set_drop_last, StringSet};
use crate::table::views_of;

verus! {

/// One entry of a directory tree, as the traversal found it.
#[derive(Debug)]
pub struct Entry {
    /// The full path under which the traversal reached the entry.
    pub path: String,
    /// The file name of the entry: the last component of its path, or the
    /// whole path where it has none. `None` where the name is not valid
    /// text.
    pub name: Option<String>,
    /// The extension of the path as `Path::extension` of the standard library
    /// gives it: what follows the last dot of the file name, without the
    /// dot. `None` where the path has no extension or the extension is not
    /// valid text.
    pub extension: Option<String>,
    /// The path relative to the root folder of the traversal, as
    /// `Path::strip_prefix` gives it, or `None` where the path does not lie
    /// under that root.
    pub relative: Option<String>,
    /// Whether the entry is a directory, symbolic links followed.
    pub is_dir: bool,
    /// The number of steps from the root folder down to the entry; the root
    /// itself has depth 0.
    pub depth: usize,
    /// When the entry was last modified, where that was read and readable.
    pub modified: Option<Timestamp>,
}

/// One item of a traversal: an entry, or the report that something at the
/// given depth could not be read.
#[derive(Debug)]
pub enum WalkItem {
    Found(Entry),
    Failed { depth: usize },
}

/// The mathematical content of an [`Entry`].
pub struct EntryView {
    pub path: Seq<char>,
    pub name: Option<Seq<char>>,
    pub extension: Option<Seq<char>>,
    pub relative: Option<Seq<char>>,
    pub is_dir: bool,
    pub depth: nat,
    pub modified: Option<Timestamp>,
}

/// The mathematical content of a [`WalkItem`].
pub enum ItemView {
    Found(EntryView),
    Failed { depth: nat },
}

/// The view of an optional string.
pub open spec fn text_of(s: Option<String>) -> Option<Seq<char>> {
    match s {
        Some(t) => Some(t@),
        None => None,
    }
}

impl View for Entry {
    type V = EntryView;

    open spec fn view(&self) -> EntryView {
        EntryView {
            path: self.path@,
            name: text_of(self.name),
            extension: text_of(self.extension),
            relative: text_of(self.relative),
            is_dir: self.is_dir,
            depth: self.depth as nat,
            modified: self.modified,
        }
    }
}

impl View for WalkItem {
    type V = ItemView;

    open spec fn view(&self) -> ItemView {
        match self {
            WalkItem::Found(e) => ItemView::Found(e@),
            WalkItem::Failed { depth } => ItemView::Failed { depth: *depth as nat },
        }
    }
}

/// The views of a sequence of items, in the same order.
pub open spec fn stream_of(items: Seq<WalkItem>) -> Seq<ItemView> {
    items.map_values(|item: WalkItem| item@)
}

impl ItemView {
    /// The depth at which the item was reported.
    pub open spec fn depth(self) -> nat {
        match self {
            ItemView::Found(e) => e.depth,
            ItemView::Failed { depth } => depth,
        }
    }

    /// The entry of an item that is one.
    pub open spec fn entry(self) -> EntryView
        recommends
            self is Found,
    {
        self->Found_0
    }
}

/// The traversal filter: an entry is turned away exactly if it is a directory
/// whose name is readable and excluded.
pub open spec fn allowed(entry: EntryView, excluded: Set<Seq<char>>) -> bool {
    !entry.is_dir || match entry.name {
        Some(name) => !excluded.contains(name),
        None => true,
    }
}

/// Decides whether a traversal may yield `entry` and, if it is a directory,
/// descend into it.
pub fn is_allowed(entry: &Entry, excluded: &StringSet) -> (b: bool)
    ensures
        b == allowed(entry@, excluded@),
{
    if !entry.is_dir {
        return true;
    }
    match &entry.name {
        Some(name) => !excluded.contains(name.as_str()),
        None => true,
    }
}

/// The lower-case form of a string, as the standard library's
/// `str::to_lowercase` computes it from the Unicode case tables.
pub uninterp spec fn lowercase_of(s: Seq<char>) -> Seq<char>;

/// Calls `str::to_lowercase`.
///
/// The conversion follows the Unicode tables built into the standard library
/// and depends on nothing but the string, so the contract gives its result
/// the name `lowercase_of` and claims nothing further of it.
#[verifier::external_body]
fn to_lowercase(s: &str) -> (r: String)
    ensures
        r@ == lowercase_of(s@),
{
    s.to_lowercase()
}

/// The extension by which a file is matched: a dot and the lower-case form
/// of the raw extension, or the empty string for a file without extension.
pub open spec fn extension_of(raw: Option<Seq<char>>) -> Seq<char> {
    match raw {
        Some(ext) => seq!['.'] + lowercase_of(ext),
        None => Seq::<char>::empty(),
    }
}

/// Puts a dot in front of `ext`.
pub fn with_leading_dot(ext: &str) -> (r: String)
    ensures
        r@ == seq!['.'] + ext@,
{
    let mut r = String::from_str(".");
    proof {
        reveal_strlit(".");
    }
    r.append(ext);
    assert(r@ =~= seq!['.'] + ext@);
    r
}

/// The extension of `entry` with a leading dot, in lower case; the empty
/// string if it has none.
pub fn file_extension(entry: &Entry) -> (r: String)
    ensures
        r@ == extension_of(entry@.extension),
{
    match &entry.extension {
        Some(ext) => {
            let lowered = to_lowercase(ext.as_str());
            with_leading_dot(lowered.as_str())
        },
        None => String::new(),
    }
}

/// Whether a set of extensions keeps a file with the extension `ext`: the
/// empty set keeps every file, any other set the files whose extension it
/// holds.
pub open spec fn keeps(extensions: Set<Seq<char>>, ext: Seq<char>) -> bool {
    extensions == Set::<Seq<char>>::empty() || extensions.contains(ext)
}

/// Whether `extensions` keeps a file whose lower-case, dotted extension is
/// `ext`.
pub fn extension_kept(extensions: &StringSet, ext: &str) -> (b: bool)
    ensures
        b == keeps(extensions@, ext@),
{
    extensions.is_empty() || extensions.contains(ext)
}

/// Whether `extensions` keeps the file `entry`.
pub fn matches_extension(entry: &Entry, extensions: &StringSet) -> (b: bool)
    ensures
        b == keeps(extensions@, extension_of(entry@.extension)),
{
    if extensions.is_empty() {
        return true;
    }
    let ext = file_extension(entry);
    extensions.contains(ext.as_str())
}

/// The lower-case forms of a sequence of strings, in the same order.
pub open spec fn lowered(list: Seq<Seq<char>>) -> Seq<Seq<char>> {
    list.map_values(|s: Seq<char>| lowercase_of(s))
}

/// The extension set of a scan: the lower-case forms of the configured
/// extensions.
pub fn extension_set(extensions: &Vec<String>) -> (r: StringSet)
    ensures
        r@ == lowered(views_of(extensions@)).to_set(),
{
    let mut r = StringSet::new();
    let ghost all = lowered(views_of(extensions@));
    let mut i: usize = 0;
    while i < extensions.len()
        invariant
            0 <= i <= extensions.len(),
            all == lowered(views_of(extensions@)),
            r@ == all.take(i as int).to_set(),
        decreases extensions.len() - i,
    {
        let low = to_lowercase(extensions[i].as_str());
        proof {
            assert(low@ == all[i as int]);
            assert(all.take(i + 1).drop_last() =~= all.take(i as int));
            lemma_to_set_drop_last(all.take(i + 1));
        }
        r.insert(low);
        i += 1;
    }
    assert(all.take(i as int) =~= all);
    r
}

/// The relative path under which a file is listed: its path below the root
/// folder, or its full path where it has none.
pub open spec fn listed_path(entry: EntryView) -> Seq<char> {
    match entry.relative {
        Some(rel) => rel,
        None => entry.path,
    }
}

/// Whether the modification time of an entry is wanted: only directories
/// below the root are recorded with their time.
pub fn wants_modified(is_dir: bool, depth: usize) -> (b: bool)
    ensures
        b == (is_dir && depth > 0),
{
    is_dir && depth > 0
}

} // verus!
