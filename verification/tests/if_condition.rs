use grass_verified::if_condition::{
    check_no_sass_with_raw, check_parens_for_sass_raw, condition_contains_sass,
    condition_has_raw, condition_has_sass, serialize_if_condition, unwrap_paren, IfCondition,
    IfConditionAtom, IfConditionError, Interpolation, InterpolationPart,
};

fn text(s: &str) -> Interpolation {
    Interpolation { contents: vec![InterpolationPart::String(s.to_string())] }
}

fn css(s: &str) -> IfCondition {
    IfCondition::Atom(IfConditionAtom::Css(text(s)))
}

fn raw(s: &str) -> IfCondition {
    IfCondition::Atom(IfConditionAtom::CssRaw(text(s)))
}

fn sass(s: &str) -> IfCondition {
    IfCondition::Atom(IfConditionAtom::Sass(s.to_string()))
}

fn paren(c: IfCondition) -> IfCondition {
    IfCondition::Paren(Box::new(c))
}

#[test]
fn sass_atoms_are_found_inside_groups() {
    let c = IfCondition::And(vec![css("a"), paren(IfCondition::Not(Box::new(sass("$x"))))]);
    assert!(condition_has_sass(&c));
    assert!(condition_contains_sass(&c));
    assert!(!condition_has_sass(&IfCondition::Or(vec![css("a"), raw("var(--b)")])));
    assert!(!condition_has_sass(&IfCondition::Else));
}

#[test]
fn raw_atoms_are_found_outside_groups_only() {
    assert!(condition_has_raw(&IfCondition::Not(Box::new(raw("var(--a)")))));
    assert!(condition_has_raw(&IfCondition::Atom(IfConditionAtom::Interp("$x".to_string()))));
    assert!(!condition_has_raw(&paren(raw("var(--a)"))));
    assert!(condition_has_raw(&IfCondition::Or(vec![css("a"), raw("var(--b)")])));
    assert!(!condition_has_raw(&css("a")));
}

#[test]
fn sass_with_raw_in_one_scope_is_refused() {
    let c = IfCondition::And(vec![raw("var(--a)"), paren(sass("$x"))]);
    let err = check_no_sass_with_raw(&c).unwrap_err();
    assert_eq!(err, IfConditionError::SassWithSubstitutions);
    assert_eq!(
        err.message(),
        "if() conditions with arbitrary substitutions may not contain sass() expressions."
    );
}

#[test]
fn raw_inside_a_group_does_not_conflict_with_sass_outside() {
    let c = IfCondition::And(vec![sass("$x"), paren(raw("var(--a)"))]);
    assert!(check_no_sass_with_raw(&c).is_ok());
}

#[test]
fn groups_are_checked_as_scopes_of_their_own() {
    let bad_group = paren(IfCondition::Or(vec![raw("var(--a)"), sass("$x")]));
    assert!(check_parens_for_sass_raw(&bad_group).is_err());
    let c = IfCondition::And(vec![css("a"), IfCondition::Not(Box::new(bad_group))]);
    assert!(check_no_sass_with_raw(&c).is_err());
    assert!(check_no_sass_with_raw(&sass("$x")).is_ok());
}

#[test]
fn unwrap_paren_removes_one_level() {
    match unwrap_paren(paren(paren(css("a")))) {
        IfCondition::Paren(inner) => assert!(matches!(*inner, IfCondition::Atom(_))),
        other => panic!("unexpected {:?}", other),
    }
    assert!(matches!(unwrap_paren(IfCondition::Else), IfCondition::Else));
}

#[test]
fn serialize_writes_css() {
    let c = IfCondition::Or(vec![
        IfCondition::And(vec![css("media(print)"), IfCondition::Not(Box::new(css("supports(x)")))]),
        paren(raw("style(--a: 1)")),
    ]);
    assert_eq!(
        serialize_if_condition(&c),
        "media(print) and not supports(x) or (style(--a: 1))"
    );
    assert_eq!(serialize_if_condition(&IfCondition::Else), "else");
}

#[test]
fn serialize_of_non_plain_atom_is_empty() {
    let atom = IfCondition::Atom(IfConditionAtom::Css(Interpolation {
        contents: vec![
            InterpolationPart::String("a".to_string()),
            InterpolationPart::String("b".to_string()),
        ],
    }));
    assert_eq!(serialize_if_condition(&atom), "");
    let empty = IfCondition::Atom(IfConditionAtom::Css(Interpolation { contents: vec![] }));
    assert_eq!(serialize_if_condition(&empty), "");
}

#[test]
fn as_plain_text() {
    assert_eq!(text("abc").as_plain(), Some("abc"));
    assert_eq!(Interpolation { contents: vec![] }.as_plain(), Some(""));
    let expr = Interpolation { contents: vec![InterpolationPart::Expr("$a".to_string())] };
    assert_eq!(expr.as_plain(), None);
}

#[test]
fn conditions_without_sass_always_pass_the_check() {
    let c = IfCondition::Or(vec![
        raw("var(--a)"),
        paren(IfCondition::And(vec![raw("attr(x)"), css("media(print)")])),
        IfCondition::Not(Box::new(IfCondition::Atom(IfConditionAtom::Interp("$i".to_string())))),
    ]);
    assert!(!condition_has_sass(&c));
    assert!(check_no_sass_with_raw(&c).is_ok());
}
