use std::collections::HashMap;
use std::rc::Rc;

use grass_verified::css_tree::{CssStmt, CssTree, ExtendedSelector, MediaRule, Style};
use grass_verified::media::CssMediaQuery;
use grass_verified::selector::{
    ComplexSelector, ComplexSelectorComponent, CompoundSelector, SelectorList, SimpleSelector,
};

fn style(property: &str, value: &str) -> CssStmt {
    CssStmt::Style(Style { property: property.to_string(), value: value.to_string() })
}

fn list(simple: SimpleSelector) -> Rc<SelectorList> {
    Rc::new(SelectorList {
        components: vec![ComplexSelector::new_transient(
            vec![ComplexSelectorComponent::Compound(Box::new(CompoundSelector {
                components: vec![simple],
                min_specificity: 1,
                max_specificity: 1,
            }))],
            false,
        )],
    })
}

fn rule(key: usize, name: &str) -> CssStmt {
    CssStmt::RuleSet {
        selector: ExtendedSelector::new(key, list(SimpleSelector::Type(name.to_string()))),
        body: Vec::new(),
        is_group_end: false,
    }
}

fn queries(media_type: &str) -> Vec<CssMediaQuery> {
    vec![CssMediaQuery {
        modifier: None,
        media_type: Some(media_type.to_string()),
        conditions: Vec::new(),
        conjunction: true,
    }]
}

fn media(media_type: &str) -> CssStmt {
    CssStmt::Media(MediaRule { query: queries(media_type), body: Vec::new() }, false)
}

fn query_text(qs: &[CssMediaQuery]) -> String {
    qs.iter()
        .map(|q| q.media_type.clone().unwrap_or_default())
        .collect::<Vec<_>>()
        .join(", ")
}

fn describe(stmt: &CssStmt) -> String {
    match stmt {
        CssStmt::RuleSet { selector, body, .. } => format!(
            "rule#{}{{{}}}",
            selector.rc_ptr(),
            body.iter().map(describe).collect::<Vec<_>>().join(",")
        ),
        CssStmt::Style(s) => format!("{}:{}", s.property, s.value),
        CssStmt::Media(m, _) => format!(
            "@media {}{{{}}}",
            query_text(&m.query),
            m.body.iter().map(describe).collect::<Vec<_>>().join(",")
        ),
        CssStmt::UnknownAtRule(a, _) => format!("@{}", a.name),
        CssStmt::Import(s, _) => format!("@import {s}"),
        CssStmt::Comment(s, _) => format!("/*{s}*/"),
        CssStmt::Supports(s, _) => format!("@supports {}", s.params),
        CssStmt::KeyframesRuleSet(k) => format!("keyframes {}", k.selector),
    }
}

fn output(tree: CssTree) -> Vec<String> {
    tree.finish().iter().map(describe).collect()
}

#[test]
fn new_tree_has_only_an_empty_root() {
    let tree = CssTree::new();
    assert!(tree.get(CssTree::ROOT).is_none());
    assert_eq!(tree.child_count(CssTree::ROOT), 0);
    assert!(output(tree).is_empty());
}

#[test]
fn added_statement_is_read_back() {
    let mut tree = CssTree::new();
    let idx = tree.add_stmt(style("color", "red"), None);
    assert_eq!(idx, 1);
    assert_eq!(describe(tree.get(idx).as_ref().unwrap()), "color:red");
    assert_eq!(tree.child_count(CssTree::ROOT), 1);
    assert_eq!(tree.child_to_parent.get(&idx), Some(&CssTree::ROOT));
}

#[test]
fn get_mut_replaces_a_statement() {
    let mut tree = CssTree::new();
    let idx = tree.add_stmt(style("color", "red"), None);
    *tree.get_mut(idx) = Some(style("color", "blue"));
    assert_eq!(output(tree), vec!["color:blue"]);
}

#[test]
fn finish_moves_children_into_their_parents() {
    let mut tree = CssTree::new();
    let a = tree.add_stmt(rule(1, "a"), None);
    tree.add_child(style("color", "red"), a);
    tree.add_child(style("margin", "0"), a);
    let b = tree.add_stmt(rule(4, "b"), None);
    tree.add_child(style("padding", "0"), b);
    assert_eq!(
        output(tree),
        vec!["rule#1{color:red,margin:0}", "rule#4{padding:0}"]
    );
}

#[test]
fn finish_nests_depth_first() {
    let mut tree = CssTree::new();
    let m = tree.add_stmt(media("screen"), None);
    let r = tree.add_child(rule(2, "a"), m);
    tree.add_child(style("color", "red"), r);
    assert_eq!(output(tree), vec!["@media screen{rule#2{color:red}}"]);
}

#[test]
fn hidden_nodes_and_descendants_are_left_out() {
    let mut tree = CssTree::new();
    let a = tree.add_stmt(rule(1, "a"), None);
    tree.add_child(style("color", "red"), a);
    tree.add_stmt(style("top", "0"), None);
    tree.mark_hidden(a);
    assert!(tree.is_hidden(a));
    assert!(!tree.is_hidden(CssTree::ROOT));
    assert_eq!(output(tree), vec!["top:0"]);
}

#[test]
fn link_child_to_parent_moves_output() {
    let mut tree = CssTree::new();
    let a = tree.add_stmt(rule(1, "a"), None);
    let s = tree.add_stmt(style("x", "y"), None);
    tree.link_child_to_parent(s, a);
    assert_eq!(tree.parent_to_child.get(&a), Some(&vec![s]));
    assert_eq!(tree.child_to_parent.get(&s), Some(&a));
    tree.add_stmt(style("top", "0"), None);
    assert_eq!(output(tree), vec!["rule#1{x:y}", "top:0"]);
}

#[test]
fn the_last_slot_keeps_its_children_apart() {
    // Children are applied to every slot but the last one.
    let mut tree = CssTree::new();
    let s = tree.add_stmt(style("x", "y"), None);
    let a = tree.add_stmt(rule(2, "a"), None);
    tree.link_child_to_parent(s, a);
    assert_eq!(output(tree), vec!["x:y", "rule#2{}"]);
}

#[test]
fn root_children_and_counts() {
    let mut tree = CssTree::new();
    let a = tree.add_stmt(style("a", "1"), None);
    let b = tree.add_stmt(style("b", "2"), None);
    let c = tree.add_stmt(style("c", "3"), None);
    assert_eq!(tree.child_count(CssTree::ROOT), 3);
    assert_eq!(tree.root_children_from(1), vec![b, c]);
    assert_eq!(tree.root_children_from(3), Vec::<usize>::new());
    assert_eq!(tree.root_children_from(0), vec![a, b, c]);
    assert_eq!(tree.child_count(a), 0);
}

#[test]
fn reparent_children_moves_the_tail() {
    let mut tree = CssTree::new();
    let a = tree.add_stmt(style("a", "1"), None);
    let b = tree.add_stmt(style("b", "2"), None);
    let r = tree.add_stmt(rule(3, "r"), None);
    let c = tree.add_stmt(style("c", "3"), None);
    tree.add_stmt(style("end", "0"), None);
    // Move `c` and the final style (positions 3 and 4 under the root) into `r`.
    tree.reparent_children(CssTree::ROOT, r, 3);
    assert_eq!(tree.root_children_from(0), vec![a, b, r]);
    assert_eq!(tree.child_count(r), 2);
    assert_eq!(tree.child_to_parent.get(&c), Some(&r));
    assert_eq!(output(tree), vec!["a:1", "b:2", "rule#3{c:3,end:0}"]);
}

#[test]
fn reparent_children_past_the_end_changes_nothing() {
    let mut tree = CssTree::new();
    let a = tree.add_stmt(style("a", "1"), None);
    let r = tree.add_stmt(rule(2, "r"), None);
    tree.reparent_children(CssTree::ROOT, r, 2);
    assert_eq!(tree.root_children_from(0), vec![a, r]);
    assert_eq!(tree.child_count(r), 0);
}

#[test]
fn following_siblings_that_produce_output() {
    let mut tree = CssTree::new();
    let a = tree.add_stmt(style("a", "1"), None);
    let empty = tree.add_stmt(media("print"), None);
    assert!(!tree.has_following_sibling(CssTree::ROOT));
    // The only sibling after `a` is a media rule with no children.
    assert!(!tree.has_following_sibling(a));
    assert!(!tree.has_visible_child(empty));
    let stmt = media("print");
    assert!(!tree.is_stmt_visible(empty, &stmt));
    assert!(!tree.has_following_sibling(empty));
}

#[test]
fn empty_media_sibling_is_not_output() {
    let mut tree = CssTree::new();
    let a = tree.add_stmt(style("a", "1"), None);
    tree.add_stmt(media("print"), None);
    let r = tree.add_stmt(rule(3, "r"), None);
    // `a` is followed by an empty media rule and an empty style rule.
    assert!(!tree.has_following_sibling(a));
    tree.add_child(style("color", "red"), r);
    assert!(tree.has_following_sibling(a));
}

#[test]
fn tombstone_sibling_counts_as_output() {
    let mut tree = CssTree::new();
    let a = tree.add_stmt(style("a", "1"), None);
    let b = tree.add_stmt(media("print"), None);
    *tree.get_mut(b) = None;
    assert!(tree.has_following_sibling(a));
}

#[test]
fn matching_media_sibling() {
    let mut tree = CssTree::new();
    let m1 = tree.add_stmt(media("screen"), None);
    let m2 = tree.add_stmt(media("screen"), None);
    let m3 = tree.add_stmt(media("print"), None);
    assert_eq!(tree.last_matching_media_sibling(m3, CssTree::ROOT), None);
    assert_eq!(tree.last_matching_media_sibling(m1, CssTree::ROOT), None);
    let m4 = tree.add_stmt(media("print"), None);
    assert_eq!(tree.last_matching_media_sibling(m3, CssTree::ROOT), Some(m4));
    assert_eq!(tree.last_matching_media_sibling(m4, CssTree::ROOT), None);
    assert_eq!(tree.last_matching_media_sibling(m2, m1), None);
}

#[test]
fn clone_subtree_copies_with_new_selectors() {
    let mut tree = CssTree::new();
    let a = tree.add_stmt(rule(1, "a"), None);
    tree.add_child(style("color", "red"), a);
    let target = tree.add_stmt(media("screen"), None);
    tree.add_stmt(style("end", "0"), None);
    let mut map: HashMap<usize, ExtendedSelector> = HashMap::new();
    let copy = tree.clone_subtree(a, target, &mut map);
    assert_eq!(copy, 5);
    assert_eq!(map.len(), 1);
    assert_eq!(map.get(&1).map(|s| s.rc_ptr()), Some(5));
    assert_eq!(tree.child_to_parent.get(&copy), Some(&target));
    assert_eq!(tree.child_count(copy), 1);
    assert_eq!(
        output(tree),
        vec![
            "rule#1{color:red}",
            "@media screen{rule#5{color:red}}",
            "end:0",
        ]
    );
}

#[test]
fn clone_subtree_of_a_tombstone_returns_it() {
    let mut tree = CssTree::new();
    let a = tree.add_stmt(style("a", "1"), None);
    *tree.get_mut(a) = None;
    let mut map: HashMap<usize, ExtendedSelector> = HashMap::new();
    assert_eq!(tree.clone_subtree(a, CssTree::ROOT, &mut map), a);
    assert_eq!(tree.child_count(CssTree::ROOT), 1);
    assert!(map.is_empty());
}

#[test]
fn hidden_clone_is_kept_out_of_output_but_can_be_copied() {
    let mut tree = CssTree::new();
    let a = tree.add_stmt(rule(1, "a"), None);
    tree.add_child(style("color", "red"), a);
    let mut map: HashMap<usize, ExtendedSelector> = HashMap::new();
    let template = tree.clone_subtree_hidden(a, &mut map);
    assert_eq!(template, 3);
    assert!(tree.is_hidden(template));
    assert!(tree.is_hidden(4));
    assert_eq!(tree.child_to_parent.get(&template), None);
    assert_eq!(map.get(&1).map(|s| s.rc_ptr()), Some(3));
    let target = tree.add_stmt(media("screen"), None);
    let copy = tree.clone_subtree(template, target, &mut map);
    assert_eq!(map.get(&3).map(|s| s.rc_ptr()), Some(copy));
    tree.add_stmt(style("end", "0"), None);
    assert_eq!(
        output(tree),
        vec![
            "rule#1{color:red}",
            "@media screen{rule#6{color:red}}",
            "end:0",
        ]
    );
}

#[test]
fn extended_selector_identity() {
    let sel = ExtendedSelector::new(7, list(SimpleSelector::Placeholder("p".to_string())));
    assert_eq!(sel.rc_ptr(), 7);
    assert!(sel.is_invisible());
    assert_eq!(sel.clone().rc_ptr(), 7);
    assert_eq!(sel.as_selector_list().components.len(), 1);
}

#[test]
fn clone_stmt_is_a_deep_copy() {
    let mut m = MediaRule { query: queries("screen"), body: Vec::new() };
    m.body.push(style("a", "1"));
    let stmt = CssStmt::Media(m, true);
    assert_eq!(describe(&stmt.clone_stmt()), "@media screen{a:1}");
}

#[test]
fn unlinked_statements_come_out_in_slot_order() {
    let mut tree = CssTree::new();
    let a = tree.add_stmt(style("a", "1"), None);
    let b = tree.add_stmt(style("b", "2"), None);
    tree.add_stmt(style("c", "3"), None);
    assert!(tree.has_children(CssTree::ROOT));
    assert!(!tree.has_children(a));
    *tree.get_mut(b) = None;
    assert_eq!(output(tree), vec!["a:1", "c:3"]);
}

#[test]
fn a_tree_with_everything_hidden_outputs_nothing() {
    let mut tree = CssTree::new();
    let a = tree.add_stmt(style("a", "1"), None);
    let b = tree.add_stmt(style("b", "2"), None);
    tree.mark_hidden(CssTree::ROOT);
    tree.mark_hidden(a);
    tree.mark_hidden(b);
    assert!(output(tree).is_empty());
}

#[test]
fn hidden_statement_output_matches_an_empty_slot() {
    let build = |empty: bool| {
        let mut tree = CssTree::new();
        let a = tree.add_stmt(rule(1, "a"), None);
        tree.add_child(style("color", "red"), a);
        let t = tree.add_stmt(rule(3, "t"), None);
        tree.add_child(style("top", "0"), t);
        tree.add_stmt(style("end", "0"), None);
        tree.mark_hidden(t);
        if empty {
            *tree.get_mut(t) = None;
        }
        output(tree)
    };
    assert_eq!(build(false), build(true));
    assert_eq!(build(false), vec!["rule#1{color:red}", "end:0"]);
}

#[test]
fn hidden_child_of_a_shown_rule_is_left_out() {
    let mut tree = CssTree::new();
    let a = tree.add_stmt(rule(1, "a"), None);
    let s = tree.add_child(style("color", "red"), a);
    tree.add_child(style("margin", "0"), a);
    tree.add_stmt(style("end", "0"), None);
    tree.mark_hidden(s);
    assert_eq!(output(tree), vec!["rule#1{margin:0}", "end:0"]);
}

#[test]
fn media_rule_with_hidden_comment_has_empty_body() {
    let mut tree = CssTree::new();
    let m = tree.add_stmt(media("screen"), None);
    let c = tree.add_child(CssStmt::Comment("note".to_string(), false), m);
    tree.mark_hidden(c);
    tree.add_stmt(style("end", "0"), None);
    assert_eq!(output(tree), vec!["@media screen{}", "end:0"]);
}
