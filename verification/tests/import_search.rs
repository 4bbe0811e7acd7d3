use grass_verified::import_path::{explicit_candidates, import_candidates};
use grass_verified::importer::{import_bases, import_step, positions_of, ImportAction, ImportSearch};

fn strings(v: &[&str]) -> Vec<String> {
    v.iter().map(|s| s.to_string()).collect()
}

#[test]
fn candidates_for_use_rule() {
    let (imports, regular, css) = import_candidates("a/b", false);
    assert!(imports.is_empty());
    assert_eq!(regular, strings(&["a/_b.sass", "a/b.sass", "a/_b.scss", "a/b.scss"]));
    assert_eq!(css, strings(&["a/b.css", "a/_b.css"]));
}

#[test]
fn candidates_for_import_rule() {
    let (imports, regular, css) = import_candidates("b", true);
    assert_eq!(
        imports,
        strings(&["_b.import.sass", "b.import.sass", "_b.import.scss", "b.import.scss"])
    );
    assert_eq!(regular, strings(&["_b.sass", "b.sass", "_b.scss", "b.scss"]));
    assert_eq!(css, strings(&["b.import.css", "_b.import.css", "b.css", "_b.css"]));
}

#[test]
fn candidates_replace_an_extension() {
    let (_, regular, _) = import_candidates("/x/b.c", false);
    assert_eq!(regular, strings(&["/x/_b.sass", "/x/b.sass", "/x/_b.scss", "/x/b.scss"]));
}

#[test]
fn bases_are_current_dir_then_load_paths() {
    let bases = import_bases("src", &strings(&["lib", "vendor"]));
    assert_eq!(bases, strings(&["src", "lib", "vendor"]));
}

#[test]
fn positions_of_set_flags() {
    assert_eq!(positions_of(&vec![false, true, false, true]), vec![1, 3]);
}

#[test]
fn search_probes_groups_then_directory_then_next_base() {
    let s = ImportSearch::new(2, false, false);
    let (s, a) = import_step(&s, None);
    assert!(matches!(a, ImportAction::Probe { base: 0, index: false, group: 1 }));
    let (s, a) = import_step(&s, Some(vec![false; 4]));
    assert!(matches!(a, ImportAction::Probe { base: 0, index: false, group: 2 }));
    let (s, a) = import_step(&s, Some(vec![false; 2]));
    assert!(matches!(a, ImportAction::CheckDir { base: 0 }));
    let (s, a) = import_step(&s, Some(vec![false]));
    assert!(matches!(a, ImportAction::Probe { base: 1, index: false, group: 1 }));
    let (s, a) = import_step(&s, Some(vec![false, false, true, false]));
    assert!(matches!(a, ImportAction::Found { base: 1, index: false, group: 1, position: 2 }));
    assert_eq!(s.base, 1);
}

#[test]
fn search_tries_index_of_a_directory() {
    let s = ImportSearch::new(1, true, false);
    let (s, a) = import_step(&s, None);
    assert!(matches!(a, ImportAction::Probe { base: 0, index: false, group: 0 }));
    let (s, _) = import_step(&s, Some(vec![false; 4]));
    let (s, _) = import_step(&s, Some(vec![false; 4]));
    let (s, a) = import_step(&s, Some(vec![false; 4]));
    assert!(matches!(a, ImportAction::CheckDir { base: 0 }));
    let (s, a) = import_step(&s, Some(vec![true]));
    assert!(matches!(a, ImportAction::Probe { base: 0, index: true, group: 0 }));
    let (s, _) = import_step(&s, Some(vec![false; 4]));
    let (s, _) = import_step(&s, Some(vec![false; 4]));
    let (_, a) = import_step(&s, Some(vec![false; 4]));
    assert!(matches!(a, ImportAction::NotFound));
}

#[test]
fn search_reports_ambiguous_group() {
    let s = ImportSearch::new(1, false, false);
    let (s, _) = import_step(&s, None);
    let (_, a) = import_step(&s, Some(vec![true, false, true, false]));
    match a {
        ImportAction::Ambiguous { base, index, group, positions } => {
            assert_eq!((base, index, group), (0, false, 1));
            assert_eq!(positions, vec![0, 2]);
        }
        other => panic!("unexpected {:?}", other),
    }
}

#[test]
fn search_with_no_bases_finds_nothing() {
    let (_, a) = import_step(&ImportSearch::new(0, false, false), None);
    assert!(matches!(a, ImportAction::NotFound));
}

#[test]
fn explicit_scss_candidates() {
    let (imports, regular, css) = explicit_candidates("a/b.scss", true).unwrap();
    assert_eq!(imports, strings(&["a/_b.import.scss", "a/b.import.scss"]));
    assert_eq!(regular, strings(&["a/_b.scss", "a/b.scss"]));
    assert!(css.is_empty());
}

#[test]
fn explicit_css_candidates() {
    let (imports, regular, css) = explicit_candidates("b.css", true).unwrap();
    assert!(imports.is_empty() && regular.is_empty());
    assert_eq!(css, strings(&["b.import.css", "_b.import.css", "b.css", "_b.css"]));
}

#[test]
fn other_extensions_are_not_explicit() {
    assert!(explicit_candidates("a/b.txt", false).is_none());
    assert!(explicit_candidates("a/b", false).is_none());
    assert!(explicit_candidates("a/b.SCSS", false).is_none());
}

#[test]
fn explicit_search_stops_after_its_base() {
    let s = ImportSearch::new(3, false, true);
    let (s, _) = import_step(&s, None);
    let (s, a) = import_step(&s, Some(vec![false, false]));
    assert!(matches!(a, ImportAction::Probe { base: 0, index: false, group: 2 }));
    let (_, a) = import_step(&s, Some(vec![]));
    assert!(matches!(a, ImportAction::NotFound));
}

#[test]
fn explicit_css_takes_first_found() {
    let s = ImportSearch::new(1, false, true);
    let (s, _) = import_step(&s, None);
    let (s, _) = import_step(&s, Some(vec![]));
    let (_, a) = import_step(&s, Some(vec![false, true, true]));
    assert!(matches!(a, ImportAction::Found { base: 0, index: false, group: 2, position: 1 }));
}
