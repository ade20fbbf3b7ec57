use fast_filelist::dir_map::Timestamp;
use fast_filelist::entry::{
    extension_kept, extension_set, file_extension, is_allowed, matches_extension, wants_modified,
    with_leading_dot, Entry,
};
use fast_filelist::progress::{progress_for, Progress, SPINNER_TICK_MILLIS, SPINNER_TICK_STRINGS};
use fast_filelist::scan::item_depth;
use fast_filelist::entry::WalkItem;
use fast_filelist::string_set::StringSet;

fn entry(name: Option<&str>, extension: Option<&str>, is_dir: bool) -> Entry {
    Entry {
        path: format!("/r/{}", name.unwrap_or("?")),
        name: name.map(|s| s.to_string()),
        extension: extension.map(|s| s.to_string()),
        relative: name.map(|s| s.to_string()),
        is_dir,
        depth: 1,
        modified: if is_dir { Some(Timestamp { secs: 1, nanos: 2 }) } else { None },
    }
}

fn set(list: &[&str]) -> StringSet {
    StringSet::from_vec(list.iter().map(|s| s.to_string()).collect())
}

#[test]
fn spinner_tick_strings_match_expected() {
    assert_eq!(
        SPINNER_TICK_STRINGS,
        ["⠋", "⠙", "⠹", "⠸", "⠼", "⠴", "⠦", "⠧", "⠇", "⠏"]
    );
}

#[test]
fn spinner_ticks_every_eighty_milliseconds() {
    assert_eq!(SPINNER_TICK_MILLIS, 80);
}

#[test]
fn spinner_only_on_a_terminal() {
    assert_eq!(progress_for(true), Progress::Spinner);
    assert_eq!(progress_for(false), Progress::Silent);
}

#[test]
fn files_are_never_turned_away() {
    let excluded = set(&["skip", "a.bin"]);
    assert!(is_allowed(&entry(Some("a.bin"), Some("bin"), false), &excluded));
    assert!(is_allowed(&entry(Some("skip"), None, false), &excluded));
    assert!(is_allowed(&entry(None, None, false), &excluded));
}

#[test]
fn directories_are_turned_away_by_name() {
    let excluded = set(&["skip", ".git"]);
    assert!(!is_allowed(&entry(Some("skip"), None, true), &excluded));
    assert!(!is_allowed(&entry(Some(".git"), Some("git"), true), &excluded));
    assert!(is_allowed(&entry(Some("models"), None, true), &excluded));
    assert!(is_allowed(&entry(Some("Skip"), None, true), &excluded));
    assert!(is_allowed(&entry(Some("skipped"), None, true), &excluded));
    assert!(is_allowed(&entry(Some("skip"), None, true), &set(&[])));
}

#[test]
fn a_directory_with_an_undecodable_name_is_allowed() {
    assert!(is_allowed(&entry(None, None, true), &set(&["skip", "", "?"])));
}

#[test]
fn file_extension_is_dotted_and_lower_case() {
    assert_eq!(file_extension(&entry(Some("X.SAFETENSORS"), Some("SAFETENSORS"), false)), ".safetensors");
    assert_eq!(file_extension(&entry(Some("a.txt"), Some("txt"), false)), ".txt");
    assert_eq!(file_extension(&entry(Some("a.Tar"), Some("Tar"), false)), ".tar");
    assert_eq!(file_extension(&entry(Some("É.ÄÖ"), Some("ÄÖ"), false)), ".äö");
}

#[test]
fn file_extension_of_a_file_without_one_is_empty() {
    assert_eq!(file_extension(&entry(Some("noext"), None, false)), "");
    assert_eq!(file_extension(&entry(Some(".hidden"), None, false)), "");
}

#[test]
fn file_extension_after_a_trailing_dot_is_a_lone_dot() {
    assert_eq!(file_extension(&entry(Some("odd."), Some(""), false)), ".");
}

#[test]
fn leading_dot_is_put_in_front() {
    assert_eq!(with_leading_dot("txt"), ".txt");
    assert_eq!(with_leading_dot(""), ".");
    assert_eq!(with_leading_dot(".x"), "..x");
}

#[test]
fn extension_kept_by_the_empty_set_or_by_membership() {
    assert!(extension_kept(&set(&[]), ".txt"));
    assert!(extension_kept(&set(&[]), ""));
    assert!(extension_kept(&set(&[".txt", ".bin"]), ".txt"));
    assert!(!extension_kept(&set(&[".txt", ".bin"]), ".TXT"));
    assert!(!extension_kept(&set(&[".txt", ".bin"]), "txt"));
    assert!(!extension_kept(&set(&[".txt"]), ""));
}

#[test]
fn matching_lowers_the_extension_of_the_file() {
    let extensions = set(&[".safetensors"]);
    assert!(matches_extension(&entry(Some("X.SAFETENSORS"), Some("SAFETENSORS"), false), &extensions));
    assert!(matches_extension(&entry(Some("x.safetensors"), Some("safetensors"), false), &extensions));
    assert!(!matches_extension(&entry(Some("x.txt"), Some("txt"), false), &extensions));
    assert!(!matches_extension(&entry(Some("x"), None, false), &extensions));
    assert!(matches_extension(&entry(Some("x"), None, false), &set(&[])));
}

#[test]
fn extension_set_lowers_what_was_configured() {
    let configured: Vec<String> =
        [".SafeTensors", ".CKPT", ".ckpt", ".pt"].iter().map(|s| s.to_string()).collect();
    let extensions = extension_set(&configured);
    assert_eq!(
        extensions.as_sorted(),
        &vec![".ckpt".to_string(), ".pt".to_string(), ".safetensors".to_string()]
    );
    assert_eq!(extensions.len(), 3);
    assert!(extension_set(&Vec::new()).is_empty());
}

#[test]
fn modification_time_is_wanted_for_directories_below_the_root() {
    assert!(wants_modified(true, 1));
    assert!(wants_modified(true, 7));
    assert!(!wants_modified(true, 0));
    assert!(!wants_modified(false, 1));
    assert!(!wants_modified(false, 0));
}

#[test]
fn depth_of_an_item() {
    assert_eq!(item_depth(&WalkItem::Failed { depth: 4 }), 4);
    assert_eq!(item_depth(&WalkItem::Found(entry(Some("a"), None, false))), 1);
}
