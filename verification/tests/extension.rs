use codemap::CodeMap;

use grass_verified::extension::Extension;
use grass_verified::media::{copy_queries, same_queries, CssMediaQuery};
use grass_verified::selector::{ComplexSelector, ComplexSelectorComponent, CompoundSelector, SimpleSelector};

fn span() -> codemap::Span {
    let mut map = CodeMap::new();
    map.add_file("a.scss".to_string(), "a { @extend b; }".to_string()).span
}

fn selector(max: i32) -> ComplexSelector {
    ComplexSelector::new_transient(
        vec![ComplexSelectorComponent::Compound(Box::new(CompoundSelector {
            components: vec![SimpleSelector::Type("a".to_string())],
            min_specificity: 1,
            max_specificity: max,
        }))],
        false,
    )
}

fn query(media_type: &str) -> CssMediaQuery {
    CssMediaQuery {
        modifier: None,
        media_type: Some(media_type.to_string()),
        conditions: vec!["(color)".to_string()],
        conjunction: true,
    }
}

#[test]
fn one_off_takes_the_extender_specificity_by_default() {
    let e = Extension::one_off(selector(7), None, true, span());
    assert_eq!(e.specificity, 7);
    assert!(e.is_optional);
    assert!(e.is_original);
    assert!(e.target.is_none());
    assert!(e.media_context.is_none());
    let e = Extension::one_off(selector(7), Some(3), false, span());
    assert_eq!(e.specificity, 3);
    assert!(!e.is_original);
}

#[test]
fn unrestricted_extensions_apply_anywhere() {
    let e = Extension::one_off(selector(1), None, false, span());
    assert!(e.assert_compatible_media_context(&None).is_ok());
    assert!(e.assert_compatible_media_context(&Some(vec![query("screen")])).is_ok());
}

#[test]
fn restricted_extensions_apply_in_the_same_context_only() {
    let mut e = Extension::one_off(selector(1), None, false, span());
    e.media_context = Some(vec![query("screen")]);
    assert!(e.assert_compatible_media_context(&Some(vec![query("screen")])).is_ok());
    let err = e.assert_compatible_media_context(&Some(vec![query("print")])).unwrap_err();
    assert_eq!(err.message, "You may not @extend selectors across media queries.");
    assert_eq!(err.span, e.span);
    assert!(e.assert_compatible_media_context(&None).is_err());
    assert!(e
        .assert_compatible_media_context(&Some(vec![query("screen"), query("print")]))
        .is_err());
}

#[test]
fn with_extender_keeps_everything_else() {
    let e = Extension::one_off(selector(1), Some(5), true, span());
    let e = e.with_extender(selector(9));
    assert_eq!(e.extender.max_specificity(), 9);
    assert_eq!(e.specificity, 5);
    assert!(e.is_original);
}

#[test]
fn media_query_equality() {
    assert!(same_queries(&vec![query("screen")], &vec![query("screen")]));
    assert!(!same_queries(&vec![query("screen")], &vec![]));
    let mut q = query("screen");
    q.conjunction = false;
    assert!(!same_queries(&vec![query("screen")], &vec![q]));
    let mut q = query("screen");
    q.modifier = Some("not".to_string());
    assert!(!q.same_as(&query("screen")));
}

#[test]
fn copied_queries_are_the_same() {
    let qs = vec![query("screen"), query("print")];
    assert!(same_queries(&copy_queries(&qs), &qs));
    assert!(qs[0].copy().same_as(&qs[0]));
}
