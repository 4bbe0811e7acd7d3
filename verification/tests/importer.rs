use grass_verified::importer::{choose_import, AmbiguousImport};

fn names(v: &[&str]) -> Vec<String> {
    v.iter().map(|s| s.to_string()).collect()
}

#[test]
fn one_found_candidate_is_chosen() {
    let c = names(&["_a.sass", "a.sass", "_a.scss", "a.scss"]);
    assert_eq!(choose_import(&c, &vec![false, false, true, false]).unwrap(), Some(2));
    assert_eq!(choose_import(&c, &vec![false; 4]).unwrap(), None);
}

#[test]
fn several_found_candidates_are_ambiguous() {
    let c = names(&["_a.sass", "a.sass", "_a.scss", "a.scss"]);
    let err = choose_import(&c, &vec![true, false, false, true]).unwrap_err();
    assert_eq!(err.found, names(&["_a.sass", "a.scss"]));
    assert_eq!(
        AmbiguousImport::message(&err.found),
        "It's not clear which file to import. Found:\n  _a.sass\n  a.scss"
    );
}
