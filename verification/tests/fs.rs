use grass_verified::fs::{DirListing, EntryKind};

#[test]
fn recorded_entries_are_found() {
    let mut listing = DirListing::new();
    listing.insert("a.scss".to_string(), EntryKind::File);
    listing.insert("dir".to_string(), EntryKind::Dir);
    assert_eq!(listing.probe_is_file("a.scss"), Some(true));
    assert_eq!(listing.probe_is_dir("dir"), Some(true));
    assert_eq!(listing.probe_is_file("missing.scss"), Some(false));
    assert_eq!(listing.probe_is_dir("missing"), Some(false));
}

#[test]
fn case_variants_are_left_to_the_file_system() {
    let mut listing = DirListing::default();
    listing.insert("Main.SCSS".to_string(), EntryKind::File);
    assert_eq!(listing.probe_is_file("main.scss"), None);
    assert_eq!(listing.probe_is_dir("main.scss"), None);
    assert_eq!(listing.probe_is_dir("Main.SCSS"), None);
}

#[test]
fn other_entries_only_block_denial() {
    let mut listing = DirListing::new();
    listing.insert("link".to_string(), EntryKind::Other);
    assert_eq!(listing.probe_is_file("link"), None);
    assert_eq!(listing.probe_is_dir("link"), None);
}

#[test]
fn unicode_names_compare_in_lower_case() {
    let mut listing = DirListing::new();
    listing.insert("ÉTÉ.scss".to_string(), EntryKind::File);
    assert_eq!(listing.probe_is_file("été.scss"), None);
    assert_eq!(listing.probe_is_file("ete.scss"), Some(false));
}
