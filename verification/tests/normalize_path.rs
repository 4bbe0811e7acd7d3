use grass_verified::path::{normalize_components, normalize_path, PathComponent};

fn normalize(s: &str) -> String {
    normalize_path(s)
}

#[test]
fn dot_and_dotdot_mixed() {
    assert_eq!(normalize("./a/./b"), "a/b");
}

#[test]
fn dotdot_cancels_real_segment() {
    assert_eq!(normalize("a/b/../c"), "a/c");
}

#[test]
fn trailing_dotdot_cancels_single_segment() {
    assert_eq!(normalize("a/.."), "");
}

#[test]
fn leading_dotdot_accumulates_after_first_cancel() {
    // The first ".." cancels "a"; the second has nothing left to cancel
    // against and must accumulate rather than vanish.
    assert_eq!(normalize("a/../../b"), "../b");
}

#[test]
fn bare_dotdot() {
    assert_eq!(normalize(".."), "..");
}

#[test]
fn two_leading_dotdot_accumulate() {
    assert_eq!(normalize("../../a/b"), "../../a/b");
}

#[test]
fn one_leading_dotdot_odd() {
    assert_eq!(normalize("../a"), "../a");
}

#[test]
fn three_leading_dotdot_odd() {
    assert_eq!(normalize("../../../a"), "../../../a");
}

#[test]
fn four_leading_dotdot_even() {
    assert_eq!(normalize("../../../../a"), "../../../../a");
}

#[test]
fn absolute_path_dotdot_clamps_at_root() {
    // ".." above the filesystem root is a no-op, not an invalid "/.."
    assert_eq!(normalize("/../a"), "/a");
}

#[test]
fn absolute_path_multiple_dotdot_clamp_at_root() {
    assert_eq!(normalize("/../../a/../b"), "/b");
}

fn names(cs: &[PathComponent]) -> Vec<String> {
    cs.iter()
        .map(|c| match c {
            PathComponent::Prefix(p) => format!("prefix:{p}"),
            PathComponent::RootDir => "/".to_string(),
            PathComponent::CurDir => ".".to_string(),
            PathComponent::ParentDir => "..".to_string(),
            PathComponent::Normal(n) => n.clone(),
        })
        .collect()
}

#[test]
fn components_dotdot_after_prefix_is_dropped() {
    let cs = vec![
        PathComponent::Prefix("C:".to_string()),
        PathComponent::ParentDir,
        PathComponent::Normal("x".to_string()),
    ];
    assert_eq!(names(&normalize_components(&cs)), vec!["prefix:C:", "x"]);
}

#[test]
fn components_normalizing_twice_changes_nothing() {
    let cs = vec![
        PathComponent::ParentDir,
        PathComponent::CurDir,
        PathComponent::Normal("a".to_string()),
        PathComponent::ParentDir,
        PathComponent::ParentDir,
        PathComponent::Normal("b".to_string()),
    ];
    let once = normalize_components(&cs);
    assert_eq!(names(&once), vec!["..", "..", "b"]);
    let twice = normalize_components(&once);
    assert_eq!(names(&twice), names(&once));
}

#[test]
fn empty_path_stays_empty() {
    assert_eq!(normalize(""), "");
    assert_eq!(normalize("."), "");
}

#[test]
fn plain_name_comes_back_unchanged() {
    assert_eq!(normalize("style.scss"), "style.scss");
    assert_eq!(normalize(".hidden"), ".hidden");
}

#[test]
fn rooted_path_with_dot_and_dotdot() {
    assert_eq!(normalize("/a/./b/../c"), "/a/c");
}

#[test]
fn repeated_and_trailing_separators_drop() {
    assert_eq!(normalize("a//b/"), "a/b");
}
