use grass_verified::selector::{
    Combinator, ComplexSelector, ComplexSelectorComponent, CompoundSelector, Pseudo,
    SelectorList, SimpleSelector,
};

fn dummy_components(n: usize) -> Vec<ComplexSelectorComponent> {
    (0..n)
        .map(|i| {
            if i % 2 == 0 {
                ComplexSelectorComponent::Combinator(Combinator::Child)
            } else {
                ComplexSelectorComponent::Combinator(Combinator::NextSibling)
            }
        })
        .collect()
}

/// Range-equivalence check for the slice conversion in `is_super_selector`:
/// `take(n - 1).skip(m + 1)` must always agree with `[m + 1..n - 1]`.
#[test]
fn range_equivalence_take_skip_vs_slice() {
    let components = dummy_components(8);

    for &(n, m) in &[(8usize, 0usize), (6, 2), (5, 1), (4, 3)] {
        let via_take_skip: Vec<&ComplexSelectorComponent> =
            components.iter().take(n - 1).skip(m + 1).collect();
        let via_slice: &[ComplexSelectorComponent] =
            components.get(m + 1..n - 1).unwrap_or(&[]);
        let via_slice: Vec<&ComplexSelectorComponent> = via_slice.iter().collect();

        assert_eq!(
            format!("{:?}", via_take_skip),
            format!("{:?}", via_slice),
            "n={n}, m={m}: take/skip and slice disagree"
        );
    }
}

fn compound(simples: Vec<SimpleSelector>, min: i32, max: i32) -> ComplexSelectorComponent {
    ComplexSelectorComponent::Compound(Box::new(CompoundSelector {
        components: simples,
        min_specificity: min,
        max_specificity: max,
    }))
}

fn ty(name: &str) -> SimpleSelector {
    SimpleSelector::Type(name.to_string())
}

fn class(name: &str) -> SimpleSelector {
    SimpleSelector::Class(name.to_string())
}

fn comb(c: Combinator) -> ComplexSelectorComponent {
    ComplexSelectorComponent::Combinator(c)
}

fn complex(components: Vec<ComplexSelectorComponent>) -> ComplexSelector {
    ComplexSelector::new_transient(components, false)
}

#[test]
fn specificity_sums_compounds() {
    let sel = complex(vec![
        compound(vec![ty("a")], 1, 1),
        comb(Combinator::Child),
        compound(vec![class("b")], 1000, 1000),
        compound(vec![SimpleSelector::Id("c".to_string())], 3, 7),
    ]);
    assert_eq!(sel.min_specificity(), 1004);
    assert_eq!(sel.max_specificity(), 1008);
    let s = sel.specificity();
    assert_eq!((s.min, s.max), (1004, 1008));
}

#[test]
fn empty_selector_has_zero_specificity() {
    let sel = complex(vec![]);
    assert_eq!(sel.min_specificity(), 0);
    assert_eq!(sel.max_specificity(), 0);
}

#[test]
fn combinator_positions() {
    let leading = complex(vec![comb(Combinator::NextSibling), compound(vec![ty("a")], 1, 1)]);
    assert!(leading.has_leading_combinator());
    assert!(!leading.is_bogus(false));
    assert!(leading.is_bogus(true));

    let trailing = complex(vec![compound(vec![ty("a")], 1, 1), comb(Combinator::Child)]);
    assert!(!trailing.has_leading_combinator());
    assert!(trailing.is_bogus(false));

    let adjacent = complex(vec![
        compound(vec![ty("a")], 1, 1),
        comb(Combinator::Child),
        comb(Combinator::FollowingSibling),
        compound(vec![ty("b")], 1, 1),
    ]);
    assert!(adjacent.is_useless());
    assert!(adjacent.is_bogus(false));

    let fine = complex(vec![
        compound(vec![ty("a")], 1, 1),
        comb(Combinator::Child),
        compound(vec![ty("b")], 1, 1),
    ]);
    assert!(!fine.is_useless());
    assert!(!fine.is_bogus(true));
}

#[test]
fn placeholder_makes_selector_invisible() {
    let visible = complex(vec![compound(vec![ty("a")], 1, 1)]);
    assert!(!visible.is_invisible());
    let hidden = complex(vec![
        compound(vec![ty("a")], 1, 1),
        compound(vec![SimpleSelector::Placeholder("p".to_string())], 0, 0),
    ]);
    assert!(hidden.is_invisible());
}

fn pseudo_over_placeholder(name: &str) -> SimpleSelector {
    let inner = SelectorList {
        components: vec![complex(vec![compound(
            vec![SimpleSelector::Placeholder("p".to_string())],
            0,
            0,
        )])],
    };
    SimpleSelector::Pseudo(Pseudo {
        name: name.to_string(),
        is_class: true,
        selector: Some(Box::new(inner)),
    })
}

#[test]
fn pseudo_with_invisible_argument_is_invisible() {
    let sel = complex(vec![compound(vec![pseudo_over_placeholder("is")], 0, 0)]);
    assert!(sel.is_invisible());
}

#[test]
fn not_with_invisible_argument_stays_visible() {
    // `:not(%p)` matches everything that `%p` does not, so it is output.
    let sel = complex(vec![compound(vec![pseudo_over_placeholder("not")], 0, 0)]);
    assert!(!sel.is_invisible());
}

#[test]
fn parent_selector_detection() {
    let plain = complex(vec![compound(vec![ty("a")], 1, 1)]);
    assert!(!plain.contains_parent_selector());
    let parent = complex(vec![compound(vec![SimpleSelector::Parent(None)], 0, 0)]);
    assert!(parent.contains_parent_selector());
    assert!(!parent.contains_parent_selector_with_suffix());
    let suffixed = complex(vec![compound(
        vec![SimpleSelector::Parent(Some("-x".to_string()))],
        0,
        0,
    )]);
    assert!(suffixed.contains_parent_selector());
    assert!(suffixed.contains_parent_selector_with_suffix());
}

#[test]
fn selector_is_its_own_superselector() {
    let a = complex(vec![
        compound(vec![ty("a"), class("x")], 11, 11),
        comb(Combinator::Child),
        compound(vec![ty("b")], 1, 1),
        compound(vec![ty("c")], 1, 1),
    ]);
    let b = complex(vec![
        compound(vec![ty("a"), class("x")], 11, 11),
        comb(Combinator::Child),
        compound(vec![ty("b")], 1, 1),
        compound(vec![ty("c")], 1, 1),
    ]);
    assert!(a.is_super_selector(&b));
}

#[test]
fn descendant_is_superselector_of_child() {
    // `a c` matches every element that `a > b c` matches.
    let sup = complex(vec![compound(vec![ty("a")], 1, 1), compound(vec![ty("c")], 1, 1)]);
    let sub = complex(vec![
        compound(vec![ty("a")], 1, 1),
        comb(Combinator::Child),
        compound(vec![ty("b")], 1, 1),
        compound(vec![ty("c")], 1, 1),
    ]);
    assert!(sup.is_super_selector(&sub));
    assert!(!sub.is_super_selector(&sup));
}

#[test]
fn fewer_simple_selectors_is_superselector() {
    let sup = complex(vec![compound(vec![class("x")], 10, 10)]);
    let sub = complex(vec![compound(vec![ty("a"), class("x")], 11, 11)]);
    assert!(sup.is_super_selector(&sub));
    assert!(!sub.is_super_selector(&sup));
}

#[test]
fn trailing_combinator_is_never_superselector() {
    let a = complex(vec![compound(vec![ty("a")], 1, 1), comb(Combinator::Child)]);
    let b = complex(vec![compound(vec![ty("a")], 1, 1)]);
    assert!(!a.is_super_selector(&b));
    assert!(!b.is_super_selector(&a));
}

#[test]
fn following_sibling_covers_next_sibling() {
    // `a ~ b` matches every element that `a + b` matches, not the reverse.
    let general = complex(vec![
        compound(vec![ty("a")], 1, 1),
        comb(Combinator::FollowingSibling),
        compound(vec![ty("b")], 1, 1),
    ]);
    let next = complex(vec![
        compound(vec![ty("a")], 1, 1),
        comb(Combinator::NextSibling),
        compound(vec![ty("b")], 1, 1),
    ]);
    assert!(general.is_super_selector(&next));
    assert!(!next.is_super_selector(&general));
}

#[test]
fn component_kinds() {
    let c = compound(vec![ty("a")], 1, 1);
    assert!(c.is_compound());
    assert!(!c.is_combinator());
    assert_eq!(c.as_compound().min_specificity, 1);
    let k = comb(Combinator::Child);
    assert!(k.is_combinator());
    assert!(!k.is_invisible());
}

#[test]
fn spaces_are_kept_around_components() {
    assert!(!grass_verified::selector::omit_spaces_around(&comb(Combinator::Child)));
    assert!(!grass_verified::selector::omit_spaces_around(&compound(vec![ty("a")], 1, 1)));
}

#[test]
fn parent_simple_selector() {
    assert!(SimpleSelector::Parent(None).is_parent());
    assert!(SimpleSelector::Parent(Some("-x".to_string())).is_parent());
    assert!(!ty("a").is_parent());
}

#[test]
fn minimum_specificity_stays_at_most_the_maximum() {
    let sel = complex(vec![
        compound(vec![ty("a")], 1, 1),
        compound(vec![class("b")], 0, 1000),
        comb(Combinator::FollowingSibling),
        compound(vec![ty("c")], 1, 2),
    ]);
    assert!(sel.min_specificity() <= sel.max_specificity());
    assert_eq!((sel.min_specificity(), sel.max_specificity()), (2, 1003));
}

#[test]
fn compound_superselector_chains() {
    let c1 = CompoundSelector { components: vec![class("x")], min_specificity: 10, max_specificity: 10 };
    let c2 = CompoundSelector {
        components: vec![class("x"), class("y")],
        min_specificity: 20,
        max_specificity: 20,
    };
    let c3 = CompoundSelector {
        components: vec![ty("a"), class("y"), class("x")],
        min_specificity: 21,
        max_specificity: 21,
    };
    assert!(c1.is_super_selector(&c2));
    assert!(c2.is_super_selector(&c3));
    assert!(c1.is_super_selector(&c3));
    assert!(!c3.is_super_selector(&c1));
}

#[test]
fn only_a_single_leading_combinator_counts() {
    let one = complex(vec![comb(Combinator::NextSibling), compound(vec![ty("a")], 1, 1)]);
    assert!(one.has_leading_combinator());
    let two = complex(vec![
        comb(Combinator::NextSibling),
        comb(Combinator::NextSibling),
        compound(vec![ty("a")], 1, 1),
    ]);
    assert!(!two.has_leading_combinator());
    assert!(two.is_useless());
    let none = complex(vec![compound(vec![ty("a")], 1, 1)]);
    assert!(!none.has_leading_combinator());
    let bare = complex(vec![comb(Combinator::Child)]);
    assert!(bare.has_leading_combinator());
}
