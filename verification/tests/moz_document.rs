use grass_verified::if_condition::{Interpolation, InterpolationPart};
use grass_verified::moz_document::{
    moz_document_prelude_needs_deprecation_warning, split_top_level_commas,
};

fn prelude(parts: &[&str]) -> Interpolation {
    Interpolation {
        contents: parts.iter().map(|p| InterpolationPart::String(p.to_string())).collect(),
    }
}

#[test]
fn split_ignores_nested_commas() {
    assert_eq!(split_top_level_commas("a(b, c), d"), vec!["a(b, c)", " d"]);
    assert_eq!(split_top_level_commas("a"), vec!["a"]);
    assert_eq!(split_top_level_commas(""), vec![""]);
    assert_eq!(split_top_level_commas(",,"), vec!["", "", ""]);
    assert_eq!(split_top_level_commas("f((,)),g"), vec!["f((,))", "g"]);
}

#[test]
fn split_after_unbalanced_close_keeps_commas_nested() {
    // A stray `)` makes the depth negative, so later commas are not split on.
    assert_eq!(split_top_level_commas(") a, b"), vec![") a, b"]);
}

#[test]
fn select_everything_forms_need_no_warning() {
    assert!(!moz_document_prelude_needs_deprecation_warning(&prelude(&["url-prefix()"])));
    assert!(!moz_document_prelude_needs_deprecation_warning(&prelude(&[
        " url-prefix(\"\") , url-prefix('')"
    ])));
    assert!(!moz_document_prelude_needs_deprecation_warning(&prelude(&["url-prefix(", "\"\"", ")"])));
}

#[test]
fn other_preludes_need_a_warning() {
    assert!(moz_document_prelude_needs_deprecation_warning(&prelude(&["url-prefix(a)"])));
    assert!(moz_document_prelude_needs_deprecation_warning(&prelude(&[
        "url-prefix(), domain(example.com)"
    ])));
}

#[test]
fn interpolation_needs_a_warning() {
    let value = Interpolation {
        contents: vec![
            InterpolationPart::String("url-prefix(".to_string()),
            InterpolationPart::Expr("$x".to_string()),
            InterpolationPart::String(")".to_string()),
        ],
    };
    assert!(moz_document_prelude_needs_deprecation_warning(&value));
}

#[test]
fn blank_prelude_needs_no_warning() {
    assert!(!moz_document_prelude_needs_deprecation_warning(&prelude(&["  \t "])));
    assert!(!moz_document_prelude_needs_deprecation_warning(&prelude(&[])));
}

#[test]
fn split_parts_join_back_to_the_text() {
    for s in ["a(b, c), d", "", ",x,", "f(,)(,),g,(h", ") a, b"] {
        assert_eq!(split_top_level_commas(s).join(","), s);
    }
}
