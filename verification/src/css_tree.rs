use std::collections::{HashMap, HashSet};
use std::rc::Rc;
use vstd::prelude::*;

use crate::media::{copy_queries, queries_view, same_queries, CssMediaQuery, CssMediaQueryView};
use crate::selector::{list_invisible, SelectorList};

verus! {

/// A selector list shared by a style rule, identified by `key`.
///
/// The list itself is immutable and shared; a selector that must evolve
/// independently of another is given its own key.
#[derive(Debug)]
pub struct ExtendedSelector {
    pub key: usize,
    pub list: Rc<SelectorList>,
}

impl ExtendedSelector {
    pub fn new(key: usize, list: Rc<SelectorList>) -> (s: Self)
        ensures
            s.key == key,
            s.list == list,
    {
        ExtendedSelector { key, list }
    }

    /// The identity of this selector.
    pub fn rc_ptr(&self) -> (k: usize)
        ensures
            k == self.key,
    {
        self.key
    }

    pub fn as_selector_list(&self) -> (l: &SelectorList)
        ensures
            *l == *self.list,
    {
        &self.list
    }

    /// Whether every selector of the list is invisible.
    pub fn is_invisible(&self) -> (r: bool)
        ensures
            r == list_invisible(*self.list),
    {
        self.list.is_invisible()
    }
}

impl Clone for ExtendedSelector {
    /// Shares the selector list and keeps the identity.
    fn clone(&self) -> (s: Self)
        ensures
            s == *self,
    {
        ExtendedSelector { key: self.key, list: Rc::clone(&self.list) }
    }
}

/// A declaration `property: value`.
#[derive(Debug, Clone)]
pub struct Style {
    pub property: String,
    pub value: String,
}

#[derive(Debug)]
pub struct MediaRule {
    pub query: Vec<CssMediaQuery>,
    pub body: Vec<CssStmt>,
}

#[derive(Debug)]
pub struct UnknownAtRule {
    pub name: String,
    pub params: String,
    pub body: Vec<CssStmt>,
}

#[derive(Debug)]
pub struct SupportsRule {
    pub params: String,
    pub body: Vec<CssStmt>,
}

#[derive(Debug)]
pub struct KeyframesRuleSet {
    pub selector: String,
    pub body: Vec<CssStmt>,
}

/// A CSS statement, as evaluation produces it.
#[derive(Debug)]
pub enum CssStmt {
    RuleSet { selector: ExtendedSelector, body: Vec<CssStmt>, is_group_end: bool },
    Style(Style),
    Media(MediaRule, bool),
    UnknownAtRule(UnknownAtRule, bool),
    Import(String, bool),
    Comment(String, bool),
    Supports(SupportsRule, bool),
    KeyframesRuleSet(KeyframesRuleSet),
}

/// The mathematical value of a statement: its bodies as sequences.
pub enum CssStmtView {
    RuleSet { selector: ExtendedSelector, body: Seq<CssStmtView>, is_group_end: bool },
    Style(Style),
    Media { query: Seq<CssMediaQueryView>, body: Seq<CssStmtView>, is_group_end: bool },
    UnknownAtRule { name: String, params: String, body: Seq<CssStmtView>, is_group_end: bool },
    Import(String, bool),
    Comment(String, bool),
    Supports { params: String, body: Seq<CssStmtView>, is_group_end: bool },
    KeyframesRuleSet { selector: String, body: Seq<CssStmtView> },
}

/// The views of a sequence of statements.
pub open spec fn stmts_view(s: Seq<CssStmt>) -> Seq<CssStmtView>
    decreases s,
{
    if s.len() == 0 {
        Seq::empty()
    } else {
        stmts_view(s.drop_last()).push(stmt_view(s.last()))
    }
}

pub open spec fn stmt_view(s: CssStmt) -> CssStmtView
    decreases s,
{
    match s {
        CssStmt::RuleSet { selector, body, is_group_end } => CssStmtView::RuleSet {
            selector,
            body: stmts_view(body@),
            is_group_end,
        },
        CssStmt::Style(st) => CssStmtView::Style(st),
        CssStmt::Media(m, g) => CssStmtView::Media {
            query: queries_view(m.query@),
            body: stmts_view(m.body@),
            is_group_end: g,
        },
        CssStmt::UnknownAtRule(a, g) => CssStmtView::UnknownAtRule {
            name: a.name,
            params: a.params,
            body: stmts_view(a.body@),
            is_group_end: g,
        },
        CssStmt::Import(s, g) => CssStmtView::Import(s, g),
        CssStmt::Comment(s, g) => CssStmtView::Comment(s, g),
        CssStmt::Supports(r, g) => CssStmtView::Supports {
            params: r.params,
            body: stmts_view(r.body@),
            is_group_end: g,
        },
        CssStmt::KeyframesRuleSet(k) => CssStmtView::KeyframesRuleSet {
            selector: k.selector,
            body: stmts_view(k.body@),
        },
    }
}

impl View for CssStmt {
    type V = CssStmtView;

    open spec fn view(&self) -> CssStmtView {
        stmt_view(*self)
    }
}

proof fn lemma_stmts_view_len(s: Seq<CssStmt>)
    ensures
        stmts_view(s).len() == s.len(),
    decreases s.len(),
{
    if s.len() > 0 {
        lemma_stmts_view_len(s.drop_last());
    }
}

proof fn lemma_stmts_view_index(s: Seq<CssStmt>, i: int)
    requires
        0 <= i < s.len(),
    ensures
        stmts_view(s)[i] == stmt_view(s[i]),
    decreases s.len(),
{
    lemma_stmts_view_len(s.drop_last());
    if i < s.len() - 1 {
        lemma_stmts_view_index(s.drop_last(), i);
    }
}

proof fn lemma_stmts_view_push(s: Seq<CssStmt>, x: CssStmt)
    ensures
        stmts_view(s.push(x)) == stmts_view(s).push(stmt_view(x)),
{
    assert(s.push(x).drop_last() =~= s);
}

/// A statement that holds child statements.
pub open spec fn is_container(v: CssStmtView) -> bool {
    match v {
        CssStmtView::Style(_) | CssStmtView::Import(..) | CssStmtView::Comment(..) => false,
        _ => true,
    }
}

/// `v` with `child` appended to its body.
pub open spec fn push_child(v: CssStmtView, child: CssStmtView) -> CssStmtView {
    match v {
        CssStmtView::RuleSet { selector, body, is_group_end } => CssStmtView::RuleSet {
            selector,
            body: body.push(child),
            is_group_end,
        },
        CssStmtView::Media { query, body, is_group_end } => CssStmtView::Media {
            query,
            body: body.push(child),
            is_group_end,
        },
        CssStmtView::UnknownAtRule { name, params, body, is_group_end } =>
            CssStmtView::UnknownAtRule { name, params, body: body.push(child), is_group_end },
        CssStmtView::Supports { params, body, is_group_end } => CssStmtView::Supports {
            params,
            body: body.push(child),
            is_group_end,
        },
        CssStmtView::KeyframesRuleSet { selector, body } => CssStmtView::KeyframesRuleSet {
            selector,
            body: body.push(child),
        },
        other => other,
    }
}

fn clone_stmts(v: &Vec<CssStmt>) -> (r: Vec<CssStmt>)
    ensures
        stmts_view(r@) == stmts_view(v@),
    decreases v,
{
    let mut out: Vec<CssStmt> = Vec::new();
    let mut i: usize = 0;
    while i < v.len()
        invariant
            i <= v.len(),
            stmts_view(out@) == stmts_view(v@.take(i as int)),
        decreases v.len() - i,
    {
        let c = v[i].clone_stmt();
        proof {
            lemma_stmts_view_push(out@, c);
            lemma_stmts_view_push(v@.take(i as int), v@[i as int]);
            assert(v@.take(i as int).push(v@[i as int]) =~= v@.take(i + 1));
        }
        out.push(c);
        i = i + 1;
    }
    assert(v@.take(i as int) =~= v@);
    out
}

impl CssStmt {
    /// A deep copy of this statement.
    pub fn clone_stmt(&self) -> (r: CssStmt)
        ensures
            r@ == self@,
        decreases self,
    {
        match self {
            CssStmt::RuleSet { selector, body, is_group_end } => CssStmt::RuleSet {
                selector: selector.clone(),
                body: clone_stmts(body),
                is_group_end: *is_group_end,
            },
            CssStmt::Style(st) => CssStmt::Style(Style {
                property: st.property.clone(),
                value: st.value.clone(),
            }),
            CssStmt::Media(m, g) => CssStmt::Media(
                MediaRule { query: copy_queries(&m.query), body: clone_stmts(&m.body) },
                *g,
            ),
            CssStmt::UnknownAtRule(a, g) => CssStmt::UnknownAtRule(
                UnknownAtRule {
                    name: a.name.clone(),
                    params: a.params.clone(),
                    body: clone_stmts(&a.body),
                },
                *g,
            ),
            CssStmt::Import(s, g) => CssStmt::Import(s.clone(), *g),
            CssStmt::Comment(s, g) => CssStmt::Comment(s.clone(), *g),
            CssStmt::Supports(r, g) => CssStmt::Supports(
                SupportsRule { params: r.params.clone(), body: clone_stmts(&r.body) },
                *g,
            ),
            CssStmt::KeyframesRuleSet(k) => CssStmt::KeyframesRuleSet(
                KeyframesRuleSet { selector: k.selector.clone(), body: clone_stmts(&k.body) },
            ),
        }
    }

    /// Appends `child` to the body of this statement, which must hold
    /// children.
    fn push_child(&mut self, child: CssStmt)
        requires
            is_container(old(self)@),
        ensures
            final(self)@ == push_child(old(self)@, child@),
    {
        match self {
            CssStmt::RuleSet { body, .. } => {
                proof { lemma_stmts_view_push(body@, child); }
                body.push(child);
            },
            CssStmt::Media(m, _) => {
                proof { lemma_stmts_view_push(m.body@, child); }
                m.body.push(child);
            },
            CssStmt::UnknownAtRule(a, _) => {
                proof { lemma_stmts_view_push(a.body@, child); }
                a.body.push(child);
            },
            CssStmt::Supports(r, _) => {
                proof { lemma_stmts_view_push(r.body@, child); }
                r.body.push(child);
            },
            CssStmt::KeyframesRuleSet(k) => {
                proof { lemma_stmts_view_push(k.body@, child); }
                k.body.push(child);
            },
            _ => {},
        }
    }
}


// ---------------------------------------------------------------------------
// The statement tree

/// The index of a statement in a [`CssTree`].
pub type CssTreeIdx = usize;

/// The statements produced during evaluation, with their parent/child
/// links. Bodies of statements stay empty while the tree is built; the
/// links are applied by [`CssTree::finish`]. A `None` slot is a tombstone.
#[derive(Debug)]
pub struct CssTree {
    stmts: Vec<Option<CssStmt>>,
    pub parent_to_child: HashMap<usize, Vec<usize>>,
    pub child_to_parent: HashMap<usize, usize>,
    /// Nodes hidden from output but kept for cloning.
    hidden: HashSet<usize>,
}

/// The mathematical value of a [`CssTree`].
pub struct CssTreeView {
    pub stmts: Seq<Option<CssStmtView>>,
    pub children: Map<usize, Seq<usize>>,
    pub parents: Map<usize, usize>,
    pub hidden: Set<usize>,
}

pub open spec fn opt_view(o: Option<CssStmt>) -> Option<CssStmtView> {
    match o {
        Some(s) => Some(s@),
        None => None,
    }
}

pub open spec fn children_view(m: Map<usize, Vec<usize>>) -> Map<usize, Seq<usize>> {
    Map::new(|k: usize| m.dom().contains(k), |k: usize| m[k]@)
}

/// `rank` strictly decreases along every parent-to-child link.
pub open spec fn valid_rank(ch: Map<usize, Seq<usize>>, rank: spec_fn(usize) -> nat) -> bool {
    forall|p: usize, j: int|
        ch.dom().contains(p) && 0 <= j < ch[p].len() ==> #[trigger] rank(ch[p][j]) < rank(p)
}

/// The links form no cycle.
pub open spec fn acyclic(ch: Map<usize, Seq<usize>>) -> bool {
    exists|rank: spec_fn(usize) -> nat| valid_rank(ch, rank)
}

pub open spec fn rank_of(ch: Map<usize, Seq<usize>>) -> spec_fn(usize) -> nat {
    choose|rank: spec_fn(usize) -> nat| valid_rank(ch, rank)
}

/// A path of links from `path[0]` to `path.last()`.
pub open spec fn is_path(ch: Map<usize, Seq<usize>>, path: Seq<usize>) -> bool {
    &&& path.len() >= 1
    &&& forall|k: int|
        0 <= k < path.len() - 1 ==> ch.dom().contains(#[trigger] path[k]) && ch[path[k]].contains(
            path[k + 1],
        )
}

/// The children of `p` in `ch`, empty when `p` has none.
pub open spec fn children_in(ch: Map<usize, Seq<usize>>, p: usize) -> Seq<usize> {
    if ch.dom().contains(p) {
        ch[p]
    } else {
        Seq::empty()
    }
}

/// Every node with children, and every child, is below `n`.
pub open spec fn links_below(ch: Map<usize, Seq<usize>>, n: nat) -> bool {
    forall|p: usize| #[trigger]
        ch.dom().contains(p) ==> p < n && forall|j: int|
            0 <= j < ch[p].len() ==> #[trigger] ch[p][j] < n
}

/// `b` is `a` or a descendant of `a`.
pub open spec fn reaches(ch: Map<usize, Seq<usize>>, a: usize, b: usize) -> bool {
    exists|path: Seq<usize>| #[trigger] is_path(ch, path) && path[0] == a && path.last() == b
}

impl View for CssTree {
    type V = CssTreeView;

    closed spec fn view(&self) -> CssTreeView {
        CssTreeView {
            stmts: self.stmts@.map_values(|o: Option<CssStmt>| opt_view(o)),
            children: children_view(self.parent_to_child@),
            parents: self.child_to_parent@,
            hidden: self.hidden@,
        }
    }
}

impl CssTreeView {
    /// Every link stays inside the tree and the links form no cycle.
    pub open spec fn wf(self) -> bool {
        &&& 1 <= self.stmts.len() < usize::MAX
        &&& forall|p: usize| #[trigger]
            self.children.dom().contains(p) ==> p < self.stmts.len() && forall|j: int|
                0 <= j < self.children[p].len() ==> #[trigger] self.children[p][j]
                    < self.stmts.len()
        &&& acyclic(self.children)
    }

    /// The children of `p`, empty when `p` has none.
    pub open spec fn children_of(self, p: usize) -> Seq<usize> {
        children_in(self.children, p)
    }
}

proof fn lemma_view_stmts(t: &CssTree)
    ensures
        t@.stmts.len() == t.stmts@.len(),
        forall|i: int| 0 <= i < t.stmts@.len() ==> #[trigger] t@.stmts[i] == opt_view(t.stmts@[i]),
{
}

impl CssTree {
    /// The index of the root.
    pub const ROOT: CssTreeIdx = 0;

    pub fn new() -> (t: Self)
        ensures
            t@.wf(),
            t@.stmts == seq![None::<CssStmtView>],
            t@.children == Map::<usize, Seq<usize>>::empty(),
            t@.parents == Map::<usize, usize>::empty(),
            t@.hidden == Set::<usize>::empty(),
    {
        let mut tree = CssTree {
            stmts: Vec::new(),
            parent_to_child: HashMap::new(),
            child_to_parent: HashMap::new(),
            hidden: HashSet::new(),
        };
        tree.stmts.push(None);
        let ghost rank = |x: usize| 0nat;
        assert(tree@.stmts =~= seq![None::<CssStmtView>]);
        assert(tree@.children =~= Map::<usize, Seq<usize>>::empty());
        assert(valid_rank(tree@.children, rank));
        tree
    }
}

/// Appends `child` to the children of `parent`.
fn push_link(m: &mut HashMap<usize, Vec<usize>>, parent: usize, child: usize)
    ensures
        children_view(final(m)@) == children_view(old(m)@).insert(
            parent,
            (if old(m)@.dom().contains(parent) {
                old(m)@[parent]@
            } else {
                Seq::empty()
            }).push(child),
        ),
{
    broadcast use vstd::std_specs::hash::group_hash_axioms;

    let ghost old_view = children_view(m@);
    match m.remove(&parent) {
        Some(mut v) => {
            v.push(child);
            m.insert(parent, v);
        },
        None => {
            let mut v = Vec::new();
            v.push(child);
            m.insert(parent, v);
        },
    }
    assert(children_view(m@) =~= old_view.insert(
        parent,
        (if old(m)@.dom().contains(parent) {
            old(m)@[parent]@
        } else {
            Seq::empty()
        }).push(child),
    ));
}

/// The largest rank among the nodes below `n`.
pub open spec fn rank_bound(rank: spec_fn(usize) -> nat, n: nat) -> nat
    decreases n,
{
    if n == 0 {
        0
    } else {
        let r = rank_bound(rank, (n - 1) as nat);
        if rank((n - 1) as usize) > r {
            rank((n - 1) as usize)
        } else {
            r
        }
    }
}

proof fn lemma_rank_bound(rank: spec_fn(usize) -> nat, n: nat, x: usize)
    requires
        x < n,
    ensures
        rank(x) <= rank_bound(rank, n),
    decreases n,
{
    if x < n - 1 {
        lemma_rank_bound(rank, (n - 1) as nat, x);
    }
}

proof fn lemma_reaches_self(ch: Map<usize, Seq<usize>>, a: usize)
    ensures
        reaches(ch, a, a),
{
    let path = seq![a];
    assert(is_path(ch, path) && path[0] == a && path.last() == a);
}

proof fn lemma_reaches_prepend(ch: Map<usize, Seq<usize>>, p: usize, c: usize, b: usize)
    requires
        ch.dom().contains(p),
        ch[p].contains(c),
        reaches(ch, c, b),
    ensures
        reaches(ch, p, b),
{
    let path = choose|path: Seq<usize>| is_path(ch, path) && path[0] == c && path.last() == b;
    let np = seq![p] + path;
    assert forall|k: int| 0 <= k < np.len() - 1 implies ch.dom().contains(#[trigger] np[k])
        && ch[np[k]].contains(np[k + 1]) by {
        if k > 0 {
            assert(np[k] == path[k - 1]);
            assert(np[k + 1] == path[k]);
        }
    }
    assert(is_path(ch, np) && np[0] == p && np.last() == b);
}

/// Adding links from `to` to nodes that do not reach `to` keeps the links
/// acyclic.
proof fn lemma_link_acyclic(
    ch: Map<usize, Seq<usize>>,
    new_ch: Map<usize, Seq<usize>>,
    to: usize,
    n: nat,
)
    requires
        acyclic(ch),
        forall|p: usize| #[trigger] ch.dom().contains(p) ==> p < n && forall|j: int|
            0 <= j < ch[p].len() ==> #[trigger] ch[p][j] < n,
        forall|p: usize, j: int|
            new_ch.dom().contains(p) && 0 <= j < new_ch[p].len() ==> #[trigger] new_ch[p][j] < n
                && ((ch.dom().contains(p) && ch[p].contains(new_ch[p][j])) || (p == to
                && !reaches(ch, new_ch[p][j], to))),
    ensures
        acyclic(new_ch),
{
    let rank = rank_of(ch);
    let k = rank_bound(rank, n) + 1;
    let nr = |x: usize|
        if reaches(ch, x, to) {
            rank(x) + k
        } else {
            rank(x)
        };
    assert forall|p: usize, j: int|
        new_ch.dom().contains(p) && 0 <= j < new_ch[p].len() implies #[trigger] nr(new_ch[p][j])
        < nr(p) by {
        let c = new_ch[p][j];
        if ch.dom().contains(p) && ch[p].contains(c) {
            let jj = choose|jj: int| 0 <= jj < ch[p].len() && ch[p][jj] == c;
            assert(rank(ch[p][jj]) < rank(p));
            if reaches(ch, c, to) {
                lemma_reaches_prepend(ch, p, c, to);
            }
        } else {
            lemma_reaches_self(ch, to);
            lemma_rank_bound(rank, n, c);
        }
    }
    assert(valid_rank(new_ch, nr));
}

impl CssTree {
    pub fn get(&self, idx: CssTreeIdx) -> (r: &Option<CssStmt>)
        requires
            idx < self@.stmts.len(),
        ensures
            opt_view(*r) == self@.stmts[idx as int],
    {
        &self.stmts[idx]
    }

    pub fn get_mut(&mut self, idx: CssTreeIdx) -> (r: &mut Option<CssStmt>)
        requires
            idx < old(self)@.stmts.len(),
        ensures
            opt_view(*r) == old(self)@.stmts[idx as int],
            final(self)@.stmts == old(self)@.stmts.update(idx as int, opt_view(*final(r))),
            final(self)@.children == old(self)@.children,
            final(self)@.parents == old(self)@.parents,
            final(self)@.hidden == old(self)@.hidden,
    {
        &mut self.stmts[idx]
    }
}

proof fn lemma_fresh_reaches_nothing(ch: Map<usize, Seq<usize>>, n: usize, b: usize)
    requires
        !ch.dom().contains(n),
        n != b,
    ensures
        !reaches(ch, n, b),
{
    if reaches(ch, n, b) {
        let path = choose|path: Seq<usize>| #[trigger]
            is_path(ch, path) && path[0] == n && path.last() == b;
        if path.len() > 1 {
            assert(ch.dom().contains(path[0]));
        }
    }
}


/// A statement at `idx` would produce output: a media or supports rule
/// with a visible child, a style rule with a visible selector and a visible
/// child, or any other statement.
pub open spec fn stmt_visible(v: CssTreeView, idx: usize, s: CssStmtView) -> bool
    decreases rank_of(v.children)(idx), 2nat, 0nat,
    when acyclic(v.children)
{
    match s {
        CssStmtView::Media { .. } | CssStmtView::Supports { .. } => visible_child(v, idx),
        CssStmtView::RuleSet { selector, .. } => !list_invisible(*selector.list) && visible_child(
            v,
            idx,
        ),
        _ => true,
    }
}

/// Some child of `idx` is a statement that would produce output.
pub open spec fn visible_child(v: CssTreeView, idx: usize) -> bool
    decreases rank_of(v.children)(idx), 1nat, 0nat,
    when acyclic(v.children)
{
    v.children.dom().contains(idx) && visible_from(v, idx, 0)
}

/// Some child of `idx` at position `j` or later would produce output.
pub open spec fn visible_from(v: CssTreeView, idx: usize, j: int) -> bool
    decreases rank_of(v.children)(idx), 0nat, v.children[idx].len() + 1 - j,
    when acyclic(v.children) && v.children.dom().contains(idx) && 0 <= j
{
    if j >= v.children[idx].len() {
        false
    } else {
        visible_at(v, idx, j) || visible_from(v, idx, j + 1)
    }
}

/// The `j`-th child of `idx` would produce output.
pub open spec fn visible_at(v: CssTreeView, idx: usize, j: int) -> bool
    decreases rank_of(v.children)(idx), 0nat, 0nat,
    when acyclic(v.children) && v.children.dom().contains(idx) && 0 <= j < v.children[idx].len()
{
    let c = v.children[idx][j];
    match v.stmts[c as int] {
        Some(s) => stmt_visible(v, c, s),
        None => false,
    }
}

impl CssTree {
    proof fn lemma_wf_bounds(&self, p: usize, j: int)
        requires
            self@.wf(),
            self@.children.dom().contains(p),
            0 <= j < self@.children[p].len(),
        ensures
            p < self@.stmts.len(),
            self@.children[p][j] < self@.stmts.len(),
    {
    }

    fn add_stmt_inner(&mut self, stmt: CssStmt) -> (idx: CssTreeIdx)
        requires
            old(self)@.stmts.len() + 1 < usize::MAX,
        ensures
            idx == old(self)@.stmts.len(),
            final(self)@.stmts == old(self)@.stmts.push(Some(stmt@)),
            final(self)@.children == old(self)@.children,
            final(self)@.parents == old(self)@.parents,
            final(self)@.hidden == old(self)@.hidden,
    {
        let idx = self.stmts.len();
        self.stmts.push(Some(stmt));
        proof {
            assert(self@.stmts =~= old(self)@.stmts.push(Some(stmt@)));
        }
        idx
    }

    /// Adds `child` as the last child of `parent` and returns its index.
    pub fn add_child(&mut self, child: CssStmt, parent_idx: CssTreeIdx) -> (idx: CssTreeIdx)
        requires
            old(self)@.wf(),
            parent_idx < old(self)@.stmts.len(),
            old(self)@.stmts.len() + 1 < usize::MAX,
        ensures
            final(self)@.wf(),
            idx == old(self)@.stmts.len(),
            final(self)@.stmts == old(self)@.stmts.push(Some(child@)),
            final(self)@.children == old(self)@.children.insert(
                parent_idx,
                old(self)@.children_of(parent_idx).push(idx),
            ),
            final(self)@.parents == old(self)@.parents.insert(idx, parent_idx),
            final(self)@.hidden == old(self)@.hidden,
            final(self)@ == with_child(old(self)@, child@, parent_idx),
    {
        broadcast use vstd::std_specs::hash::group_hash_axioms;

        let child_idx = self.add_stmt_inner(child);
        push_link(&mut self.parent_to_child, parent_idx, child_idx);
        self.child_to_parent.insert(child_idx, parent_idx);
        proof {
            let old_ch = old(self)@.children;
            let n = old(self)@.stmts.len();
            lemma_fresh_reaches_nothing(old_ch, child_idx, parent_idx);
            assert(old(self)@.children_of(parent_idx) == (if old(self).parent_to_child@.dom().contains(
                parent_idx,
            ) {
                old(self).parent_to_child@[parent_idx]@
            } else {
                Seq::empty()
            }));
            let new_ch = self@.children;
            assert forall|p: usize, j: int|
                new_ch.dom().contains(p) && 0 <= j < new_ch[p].len() implies #[trigger] new_ch[p][j]
                < n + 1 && ((old_ch.dom().contains(p) && old_ch[p].contains(new_ch[p][j])) || (p
                == parent_idx && !reaches(old_ch, new_ch[p][j], parent_idx))) by {
                if p == parent_idx && j == new_ch[p].len() - 1 {
                } else {
                    assert(old_ch[p][j] == new_ch[p][j]);
                }
            }
            lemma_link_acyclic(old_ch, new_ch, parent_idx, (n + 1) as nat);
        }
        child_idx
    }

    /// Adds `child_idx` as the last child of `parent_idx`.
    pub fn link_child_to_parent(&mut self, child_idx: CssTreeIdx, parent_idx: CssTreeIdx)
        requires
            old(self)@.wf(),
            child_idx < old(self)@.stmts.len(),
            parent_idx < old(self)@.stmts.len(),
            !reaches(old(self)@.children, child_idx, parent_idx),
        ensures
            final(self)@.wf(),
            final(self)@.stmts == old(self)@.stmts,
            final(self)@.children == old(self)@.children.insert(
                parent_idx,
                old(self)@.children_of(parent_idx).push(child_idx),
            ),
            final(self)@.parents == old(self)@.parents.insert(child_idx, parent_idx),
            final(self)@.hidden == old(self)@.hidden,
    {
        broadcast use vstd::std_specs::hash::group_hash_axioms;

        push_link(&mut self.parent_to_child, parent_idx, child_idx);
        self.child_to_parent.insert(child_idx, parent_idx);
        proof {
            let old_ch = old(self)@.children;
            let n = old(self)@.stmts.len();
            let new_ch = self@.children;
            assert forall|p: usize, j: int|
                new_ch.dom().contains(p) && 0 <= j < new_ch[p].len() implies #[trigger] new_ch[p][j]
                < n && ((old_ch.dom().contains(p) && old_ch[p].contains(new_ch[p][j])) || (p
                == parent_idx && !reaches(old_ch, new_ch[p][j], parent_idx))) by {
                if p == parent_idx && j == new_ch[p].len() - 1 {
                } else {
                    assert(old_ch[p][j] == new_ch[p][j]);
                }
            }
            lemma_link_acyclic(old_ch, new_ch, parent_idx, n as nat);
        }
    }

    /// Adds `child` under `parent`, or under the root when there is none.
    pub fn add_stmt(&mut self, child: CssStmt, parent: Option<CssTreeIdx>) -> (idx: CssTreeIdx)
        requires
            old(self)@.wf(),
            parent matches Some(p) ==> p < old(self)@.stmts.len(),
            old(self)@.stmts.len() + 1 < usize::MAX,
        ensures
            ({
                let p = match parent {
                    Some(p) => p,
                    None => Self::ROOT,
                };
                &&& final(self)@.wf()
                &&& idx == old(self)@.stmts.len()
                &&& final(self)@.stmts == old(self)@.stmts.push(Some(child@))
                &&& final(self)@.children == old(self)@.children.insert(
                    p,
                    old(self)@.children_of(p).push(idx),
                )
                &&& final(self)@.parents == old(self)@.parents.insert(idx, p)
                &&& final(self)@.hidden == old(self)@.hidden
                &&& final(self)@ == with_child(old(self)@, child@, p)
            }),
    {
        match parent {
            Some(parent) => self.add_child(child, parent),
            None => self.add_child(child, Self::ROOT),
        }
    }

    /// Whether `parent` has a children list.
    pub fn has_children(&self, parent: CssTreeIdx) -> (r: bool)
        ensures
            r == self@.children.dom().contains(parent),
    {
        broadcast use vstd::std_specs::hash::group_hash_axioms;

        self.parent_to_child.contains_key(&parent)
    }

    /// The number of children currently under `parent`.
    pub fn child_count(&self, parent: CssTreeIdx) -> (n: usize)
        ensures
            n == self@.children_of(parent).len(),
    {
        broadcast use vstd::std_specs::hash::group_hash_axioms;

        match self.parent_to_child.get(&parent) {
            Some(children) => children.len(),
            None => 0,
        }
    }

    /// The children of the root from position `start` on.
    pub fn root_children_from(&self, start: usize) -> (r: Vec<CssTreeIdx>)
        requires
            self@.children.dom().contains(Self::ROOT) ==> start <= self@.children_of(
                Self::ROOT,
            ).len(),
        ensures
            r@ == tail_from(self@.children_of(Self::ROOT), start as int),
    {
        broadcast use vstd::std_specs::hash::group_hash_axioms;

        match self.parent_to_child.get(&Self::ROOT) {
            Some(children) => {
                let mut out: Vec<CssTreeIdx> = Vec::new();
                let mut i = start;
                while i < children.len()
                    invariant
                        start <= i <= children.len(),
                        out@ == children@.subrange(start as int, i as int),
                    decreases children.len() - i,
                {
                    out.push(children[i]);
                    i = i + 1;
                    assert(out@ =~= children@.subrange(start as int, i as int));
                }
                out
            },
            None => {
                let out: Vec<CssTreeIdx> = Vec::new();
                assert(out@ =~= tail_from(Seq::<usize>::empty(), start as int));
                out
            },
        }
    }

    /// Whether `idx` is hidden.
    pub fn is_hidden(&self, idx: CssTreeIdx) -> (r: bool)
        ensures
            r == self@.hidden.contains(idx),
    {
        broadcast use vstd::std_specs::hash::group_hash_axioms;

        self.hidden.contains(&idx)
    }

    /// Marks `idx` hidden: it is left out of the output of `finish`.
    pub fn mark_hidden(&mut self, idx: CssTreeIdx)
        ensures
            final(self)@.hidden == old(self)@.hidden.insert(idx),
            final(self)@.stmts == old(self)@.stmts,
            final(self)@.children == old(self)@.children,
            final(self)@.parents == old(self)@.parents,
    {
        broadcast use vstd::std_specs::hash::group_hash_axioms;

        self.hidden.insert(idx);
    }
}

/// The entries of `list` from position `start` on; none when `start` is
/// past its end.
pub open spec fn tail_from(list: Seq<usize>, start: int) -> Seq<usize> {
    if 0 <= start <= list.len() {
        list.subrange(start, list.len() as int)
    } else {
        Seq::empty()
    }
}

/// `parents` with every node of `moved` mapped to `to`.
pub open spec fn reparented(parents: Map<usize, usize>, moved: Seq<usize>, to: usize) -> Map<
    usize,
    usize,
> {
    Map::new(
        |k: usize| parents.dom().contains(k) || moved.contains(k),
        |k: usize|
            if moved.contains(k) {
                to
            } else {
                parents[k]
            },
    )
}

/// Both statements are media rules with the same queries.
pub open spec fn same_media_query(a: Option<CssStmtView>, b: Option<CssStmtView>) -> bool {
    match (a, b) {
        (
            Some(CssStmtView::Media { query: q1, .. }),
            Some(CssStmtView::Media { query: q2, .. }),
        ) => q1 == q2,
        _ => false,
    }
}

impl CssTree {
    /// The last child of `grandparent_idx`, when it is a media rule other
    /// than `parent_idx` with the same query as the media rule at
    /// `parent_idx`.
    pub fn last_matching_media_sibling(
        &self,
        parent_idx: CssTreeIdx,
        grandparent_idx: CssTreeIdx,
    ) -> (r: Option<CssTreeIdx>)
        requires
            self@.wf(),
            self@.children_of(grandparent_idx).len() > 0 && self@.children_of(grandparent_idx).last()
                != parent_idx ==> parent_idx < self@.stmts.len(),
        ensures
            ({
                let ch = self@.children_of(grandparent_idx);
                r == if ch.len() == 0 || ch.last() == parent_idx || !same_media_query(
                    self@.stmts[parent_idx as int],
                    self@.stmts[ch.last() as int],
                ) {
                    None
                } else {
                    Some(ch.last())
                }
            }),
    {
        broadcast use vstd::std_specs::hash::group_hash_axioms;

        let children = match self.parent_to_child.get(&grandparent_idx) {
            Some(c) => c,
            None => return None,
        };
        if children.len() == 0 {
            return None;
        }
        let last = children[children.len() - 1];
        if last == parent_idx {
            return None;
        }
        proof {
            self.lemma_wf_bounds(grandparent_idx, children@.len() - 1);
        }
        let parent_stmt = &self.stmts[parent_idx];
        let last_stmt = &self.stmts[last];
        match (parent_stmt, last_stmt) {
            (Some(CssStmt::Media(parent_media, _)), Some(CssStmt::Media(last_media, _))) => {
                if same_queries(&parent_media.query, &last_media.query) {
                    Some(last)
                } else {
                    None
                }
            },
            _ => None,
        }
    }

    /// Moves the children of `from_parent` from position `start` on to the
    /// end of the children of `to_parent`.
    pub fn reparent_children(
        &mut self,
        from_parent: CssTreeIdx,
        to_parent: CssTreeIdx,
        start: usize,
    )
        requires
            old(self)@.wf(),
            to_parent < old(self)@.stmts.len(),
            old(self)@.children.dom().contains(from_parent) ==> start <= old(
                self,
            )@.children_of(from_parent).len(),
            forall|j: int|
                start <= j < old(self)@.children_of(from_parent).len() ==> !reaches(
                    old(self)@.children,
                    #[trigger] old(self)@.children_of(from_parent)[j],
                    to_parent,
                ),
        ensures
            ({
                let old_v = old(self)@;
                let list = old_v.children_of(from_parent);
                let moved = tail_from(list, start as int);
                let mid = old_v.children.insert(from_parent, list.take(start as int));
                let mid_to = if mid.dom().contains(to_parent) {
                    mid[to_parent]
                } else {
                    Seq::empty()
                };
                &&& final(self)@.wf()
                &&& final(self)@.stmts == old_v.stmts
                &&& final(self)@.hidden == old_v.hidden
                &&& moved.len() == 0 ==> final(self)@.children == old_v.children
                    && final(self)@.parents == old_v.parents
                &&& moved.len() > 0 ==> final(self)@.children == mid.insert(
                    to_parent,
                    mid_to + moved,
                ) && final(self)@.parents == reparented(old_v.parents, moved, to_parent)
            }),
    {
        broadcast use vstd::std_specs::hash::group_hash_axioms;

        let ghost old_v = self@;
        let ghost list = old_v.children_of(from_parent);
        let children_to_move: Vec<CssTreeIdx> = match self.parent_to_child.get(&from_parent) {
            Some(children) => {
                let mut out: Vec<CssTreeIdx> = Vec::new();
                let mut i = start;
                while i < children.len()
                    invariant
                        start <= i <= children.len(),
                        out@ == children@.subrange(start as int, i as int),
                    decreases children.len() - i,
                {
                    out.push(children[i]);
                    i = i + 1;
                    assert(out@ =~= children@.subrange(start as int, i as int));
                }
                out
            },
            None => Vec::new(),
        };
        let ghost moved = tail_from(list, start as int);
        assert(children_to_move@ =~= moved);
        if children_to_move.len() == 0 {
            return;
        }
        match self.parent_to_child.remove(&from_parent) {
            Some(mut children) => {
                children.truncate(start);
                self.parent_to_child.insert(from_parent, children);
            },
            None => {},
        }
        let ghost mid = old_v.children.insert(from_parent, list.take(start as int));
        assert(children_view(self.parent_to_child@) =~= mid);
        assert(self@.parents =~= reparented(old_v.parents, moved.take(0), to_parent));
        let ghost mid_to = if mid.dom().contains(to_parent) {
            mid[to_parent]
        } else {
            Seq::empty()
        };
        let mut i: usize = 0;
        while i < children_to_move.len()
            invariant
                children_to_move@ == moved,
                mid_to == (if mid.dom().contains(to_parent) {
                    mid[to_parent]
                } else {
                    Seq::<usize>::empty()
                }),
                i <= moved.len(),
                self@.stmts == old_v.stmts,
                self@.hidden == old_v.hidden,
                i > 0 ==> children_view(self.parent_to_child@) == mid.insert(
                    to_parent,
                    mid_to + moved.take(i as int),
                ),
                i == 0 ==> children_view(self.parent_to_child@) == mid,
                self@.parents == reparented(old_v.parents, moved.take(i as int), to_parent),
            decreases moved.len() - i,
        {
            let child_idx = children_to_move[i];
            let ghost before = children_view(self.parent_to_child@);
            push_link(&mut self.parent_to_child, to_parent, child_idx);
            self.child_to_parent.insert(child_idx, to_parent);
            proof {
                assert(moved.take(i + 1) =~= moved.take(i as int).push(child_idx));
                let ghost prior = if before.dom().contains(to_parent) {
                    before[to_parent]
                } else {
                    Seq::<usize>::empty()
                };
                if i == 0 {
                    assert(mid_to + moved.take(0) =~= mid_to);
                    assert(before == mid);
                    if mid.dom().contains(to_parent) {
                        assert(prior == mid_to);
                    } else {
                        assert(prior =~= mid_to);
                    }
                } else {
                    assert(before.dom().contains(to_parent));
                    assert(before[to_parent] == mid_to + moved.take(i as int));
                }
                assert((if before.dom().contains(to_parent) {
                    before[to_parent]
                } else {
                    Seq::empty()
                }) == mid_to + moved.take(i as int));
                assert forall|k: usize| moved.take(i + 1).contains(k) <==> (moved.take(
                    i as int,
                ).contains(k) || k == child_idx) by {
                    if moved.take(i + 1).contains(k) {
                        let w = choose|w: int| 0 <= w < i + 1 && #[trigger] moved.take(i + 1)[w] == k;
                        if w < i {
                            assert(moved.take(i as int)[w] == k);
                        }
                    }
                    if moved.take(i as int).contains(k) {
                        let w = choose|w: int| 0 <= w < i && #[trigger] moved.take(i as int)[w] == k;
                        assert(moved.take(i + 1)[w] == k);
                    }
                    if k == child_idx {
                        assert(moved.take(i + 1)[i as int] == k);
                    }
                }
                assert(self@.parents =~= reparented(old_v.parents, moved.take(i + 1), to_parent));
                assert((mid_to + moved.take(i as int)).push(child_idx) =~= mid_to + moved.take(
                    i + 1,
                ));
            }
            i = i + 1;
        }
        proof {
            assert(moved.take(moved.len() as int) =~= moved);
            let old_ch = old_v.children;
            let new_ch = self@.children;
            let n = old_v.stmts.len();
            assert forall|p: usize, j: int|
                new_ch.dom().contains(p) && 0 <= j < new_ch[p].len() implies #[trigger] new_ch[p][j]
                < n && ((old_ch.dom().contains(p) && old_ch[p].contains(new_ch[p][j])) || (p
                == to_parent && !reaches(old_ch, new_ch[p][j], to_parent))) by {
                if p == to_parent && j >= mid_to.len() {
                    let jj = start + (j - mid_to.len());
                    assert(new_ch[p][j] == list[jj]);
                    assert(old_v.children_of(from_parent)[jj] == new_ch[p][j]);
                    self.lemma_old_bound(old_v, from_parent, jj);
                } else if p == to_parent {
                    assert(new_ch[p][j] == mid_to[j]);
                    if to_parent == from_parent {
                        assert(old_ch[p][j] == new_ch[p][j]);
                    } else {
                        assert(old_ch[p][j] == new_ch[p][j]);
                    }
                } else if p == from_parent {
                    assert(old_ch[p][j] == new_ch[p][j]);
                } else {
                    assert(old_ch[p][j] == new_ch[p][j]);
                }
            }
            lemma_link_acyclic(old_ch, new_ch, to_parent, n as nat);
        }
    }

    proof fn lemma_old_bound(&self, v: CssTreeView, p: usize, j: int)
        requires
            v.wf(),
            0 <= j < v.children_of(p).len(),
        ensures
            v.children_of(p)[j] < v.stmts.len(),
            v.children.dom().contains(p),
            v.children[p].contains(v.children_of(p)[j]),
    {
        assert(v.children[p][j] == v.children_of(p)[j]);
    }
}

impl CssTree {
    /// Whether `stmt`, placed at `idx`, would produce output.
    pub fn is_stmt_visible(&self, idx: CssTreeIdx, stmt: &CssStmt) -> (r: bool)
        requires
            self@.wf(),
        ensures
            r == stmt_visible(self@, idx, stmt@),
        decreases rank_of(self@.children)(idx), 1nat, 0nat,
    {
        match stmt {
            CssStmt::Media(..) | CssStmt::Supports(..) => self.has_visible_child(idx),
            CssStmt::RuleSet { selector, .. } => !selector.is_invisible() && self.has_visible_child(
                idx,
            ),
            _ => true,
        }
    }

    /// Whether some child of `idx` would produce output.
    pub fn has_visible_child(&self, idx: CssTreeIdx) -> (r: bool)
        requires
            self@.wf(),
        ensures
            r == visible_child(self@, idx),
        decreases rank_of(self@.children)(idx), 0nat, 1nat,
    {
        broadcast use vstd::std_specs::hash::group_hash_axioms;

        let children = match self.parent_to_child.get(&idx) {
            Some(c) => c,
            None => return false,
        };
        let ghost v = self@;
        let mut j: usize = 0;
        while j < children.len()
            invariant
                self@ == v,
                v.wf(),
                v.children.dom().contains(idx),
                children@ == v.children[idx],
                j <= children.len(),
                visible_from(v, idx, 0) == visible_from(v, idx, j as int),
            decreases children.len() - j,
        {
            let child_idx = children[j];
            proof {
                self.lemma_wf_bounds(idx, j as int);
                let rank = rank_of(v.children);
                assert(valid_rank(v.children, rank));
                assert(rank(v.children[idx][j as int]) < rank(idx));
            }
            let visible = match &self.stmts[child_idx] {
                None => false,
                Some(s) => self.is_stmt_visible(child_idx, s),
            };
            assert(visible == visible_at(v, idx, j as int));
            if visible {
                return true;
            }
            j = j + 1;
        }
        false
    }
}

/// The statement at `c` is a tombstone or would produce output.
pub open spec fn visible_or_tombstone(v: CssTreeView, c: usize) -> bool {
    match v.stmts[c as int] {
        Some(s) => stmt_visible(v, c, s),
        None => true,
    }
}

/// `f` is the first position of `x` in `list`.
pub open spec fn first_index(list: Seq<usize>, x: usize, f: int) -> bool {
    &&& 0 <= f < list.len()
    &&& list[f] == x
    &&& forall|m: int| 0 <= m < f ==> list[m] != x
}

/// After the first occurrence of `child` among its parent's children,
/// some other child is a tombstone or would produce output.
pub open spec fn following_sibling(v: CssTreeView, child: usize) -> bool {
    child != CssTree::ROOT && {
        let list = v.children[v.parents[child]];
        exists|f: int, k: int|
            #![trigger list[f], list[k]]
            first_index(list, child, f) && f < k < list.len() && list[k] != child
                && visible_or_tombstone(v, list[k])
    }
}

impl CssTree {
    proof fn lemma_following_witness(&self, v: CssTreeView, child: usize, list: Seq<usize>, f: int, k: int)
        requires
            child != Self::ROOT,
            list == v.children[v.parents[child]],
            first_index(list, child, f),
            f < k < list.len(),
            list[k] != child,
            visible_or_tombstone(v, list[k]),
        ensures
            following_sibling(v, child),
    {
        assert(list[f] == child);
    }

    /// Whether a sibling after `child` would produce output, or is a
    /// tombstone.
    pub fn has_following_sibling(&self, child: CssTreeIdx) -> (r: bool)
        requires
            self@.wf(),
            child != Self::ROOT ==> self@.parents.dom().contains(child)
                && self@.children.dom().contains(self@.parents[child]),
        ensures
            r == following_sibling(self@, child),
    {
        broadcast use vstd::std_specs::hash::group_hash_axioms;

        if child == Self::ROOT {
            return false;
        }
        let parent_idx = match self.child_to_parent.get(&child) {
            Some(p) => *p,
            None => vstd::pervasive::unreached(),
        };
        let parent_children = match self.parent_to_child.get(&parent_idx) {
            Some(c) => c,
            None => vstd::pervasive::unreached(),
        };
        let ghost v = self@;
        let ghost list = parent_children@;
        let ghost mut f: int = 0;
        let mut found_child = false;
        let mut i: usize = 0;
        while i < parent_children.len()
            invariant
                self@ == v,
                v.wf(),
                child != Self::ROOT,
                list == parent_children@,
                list == v.children[v.parents[child]],
                v.children.dom().contains(parent_idx),
                parent_idx == v.parents[child],
                i <= list.len(),
                found_child ==> first_index(list, child, f) && f < i,
                !found_child ==> forall|m: int| 0 <= m < i ==> list[m] != child,
                found_child ==> forall|k: int|
                    f < k < i && list[k] != child ==> !visible_or_tombstone(v, #[trigger] list[k]),
            decreases list.len() - i,
        {
            let sibling = parent_children[i];
            if sibling == child {
                if !found_child {
                    proof {
                        f = i as int;
                    }
                }
                found_child = true;
                i = i + 1;
                continue;
            }
            if !found_child {
                i = i + 1;
                continue;
            }
            proof {
                self.lemma_wf_bounds(parent_idx, i as int);
            }
            match &self.stmts[sibling] {
                None => {
                    assert(v.stmts[sibling as int] == opt_view(self.stmts@[sibling as int]));
                    assert(visible_or_tombstone(v, list[i as int]));
                    assert(first_index(list, child, f) && f < i < list.len() && list[i as int]
                        != child);
                    proof { self.lemma_following_witness(v, child, list, f, i as int); }
                    return true;
                },
                Some(s) => {
                    if self.is_stmt_visible(sibling, s) {
                        assert(v.stmts[sibling as int] == opt_view(self.stmts@[sibling as int]));
                        assert(visible_or_tombstone(v, list[i as int]));
                        assert(first_index(list, child, f) && f < i < list.len() && list[i as int]
                            != child);
                        proof { self.lemma_following_witness(v, child, list, f, i as int); }
                        return true;
                    }
                    assert(v.stmts[sibling as int] == opt_view(self.stmts@[sibling as int]));
                },
            }
            i = i + 1;
        }
        proof {
            assert forall|ff: int, k: int|
                #![trigger list[ff], list[k]]
                first_index(list, child, ff) && ff < k < list.len() && list[k] != child implies !visible_or_tombstone(v, list[k]) by {
                assert(found_child);
                if ff < f {
                    assert(list[ff] != child);
                } else if f < ff {
                    assert(list[f] != child);
                }
            }
        }
        false
    }
}

// ---------------------------------------------------------------------------
// Applying the links

/// Slots as they are after the children of `parent` from position `i` on
/// that are not in `hc` have been moved, depth first, into the bodies of
/// their parents.
pub open spec fn apply_list(
    s: Seq<Option<CssStmtView>>,
    ch: Map<usize, Seq<usize>>,
    hc: Set<usize>,
    parent: usize,
    i: int,
) -> Seq<Option<CssStmtView>>
    decreases rank_of(ch)(parent), 0nat, ch[parent].len() + 1 - i,
    when acyclic(ch) && ch.dom().contains(parent) && 0 <= i
{
    if i >= ch[parent].len() {
        s
    } else {
        let c = ch[parent][i];
        let s2 = if hc.contains(c) {
            s
        } else {
            let s1 = if ch.dom().contains(c) {
                apply_spec(s, ch, hc, c)
            } else {
                s
            };
            match s1[c as int] {
                Some(st) => s1.update(c as int, None).update(
                    parent as int,
                    Some(push_child(s1[parent as int].unwrap(), st)),
                ),
                None => s1,
            }
        };
        apply_list(s2, ch, hc, parent, i + 1)
    }
}

/// Slots as they are after every child of `parent` outside `hc` has been
/// moved, depth first, into the body of its parent, leaving a tombstone in
/// its slot; a child in `hc` is left where it is.
pub open spec fn apply_spec(
    s: Seq<Option<CssStmtView>>,
    ch: Map<usize, Seq<usize>>,
    hc: Set<usize>,
    parent: usize,
) -> Seq<Option<CssStmtView>>
    decreases rank_of(ch)(parent), 1nat, 0nat,
    when acyclic(ch) && ch.dom().contains(parent)
{
    apply_list(s, ch, hc, parent, 0)
}

/// Links stay inside the slots; among nodes outside `hc`, no link leads
/// to the root, and a node (not the root) whose child holds a statement
/// holds a statement with a body.
pub open spec fn appliable(
    s: Seq<Option<CssStmtView>>,
    ch: Map<usize, Seq<usize>>,
    hc: Set<usize>,
) -> bool {
    &&& forall|p: usize| #[trigger]
        ch.dom().contains(p) ==> p < s.len() && forall|j: int|
            0 <= j < ch[p].len() ==> #[trigger] ch[p][j] < s.len()
    &&& forall|p: usize, j: int|
        ch.dom().contains(p) && !hc.contains(p) && 0 <= j < ch[p].len() && !hc.contains(
            #[trigger] ch[p][j],
        ) ==> ch[p][j] != 0
    &&& forall|p: usize, j: int|
        ch.dom().contains(p) && p != 0 && !hc.contains(p) && 0 <= j < ch[p].len() && !hc.contains(
            ch[p][j],
        ) && (#[trigger] s[ch[p][j] as int]) is Some ==> s[p as int] is Some && is_container(
            s[p as int].unwrap(),
        )
}

proof fn lemma_rank_edge(ch: Map<usize, Seq<usize>>, p: usize, j: int)
    requires
        acyclic(ch),
        ch.dom().contains(p),
        0 <= j < ch[p].len(),
    ensures
        rank_of(ch)(ch[p][j]) < rank_of(ch)(p),
{
    assert(valid_rank(ch, rank_of(ch)));
}

/// The views of statement slots.
pub open spec fn slots(v: Seq<Option<CssStmt>>) -> Seq<Option<CssStmtView>> {
    v.map_values(|o: Option<CssStmt>| opt_view(o))
}

/// Slots after the statement at `c` is moved into the body of `parent`.
pub open spec fn moved_into(s: Seq<Option<CssStmtView>>, c: usize, parent: usize) -> Seq<
    Option<CssStmtView>,
> {
    s.update(c as int, None).update(
        parent as int,
        Some(push_child(s[parent as int].unwrap(), s[c as int].unwrap())),
    )
}

proof fn lemma_move_appliable(
    s1: Seq<Option<CssStmtView>>,
    ch: Map<usize, Seq<usize>>,
    hc: Set<usize>,
    parent: usize,
    i: int,
)
    requires
        appliable(s1, ch, hc),
        acyclic(ch),
        ch.dom().contains(parent),
        parent != 0,
        !hc.contains(parent),
        0 <= i < ch[parent].len(),
        !hc.contains(ch[parent][i]),
        s1[ch[parent][i] as int] is Some,
        ch.dom().contains(ch[parent][i]) ==> forall|j: int|
            0 <= j < ch[ch[parent][i]].len() && !hc.contains(ch[ch[parent][i]][j])
                ==> (#[trigger] s1[ch[ch[parent][i]][j] as int]) is None,
    ensures
        appliable(moved_into(s1, ch[parent][i], parent), ch, hc),
        moved_into(s1, ch[parent][i], parent).len() == s1.len(),
        s1[parent as int] is Some,
{
    let c = ch[parent][i];
    let s2 = moved_into(s1, c, parent);
    let rank = rank_of(ch);
    lemma_rank_edge(ch, parent, i);
    assert(s1[parent as int] is Some && is_container(s1[parent as int].unwrap()));
    assert forall|q: usize, j: int|
        ch.dom().contains(q) && q != 0 && !hc.contains(q) && 0 <= j < ch[q].len() && !hc.contains(
            ch[q][j],
        ) && (#[trigger] s2[ch[q][j] as int]) is Some implies s2[q as int] is Some && is_container(
        s2[q as int].unwrap(),
    ) by {
        let d = ch[q][j];
        lemma_rank_edge(ch, q, j);
        if d == parent {
            assert(s1[d as int] is Some);
            if q == c {
                lemma_rank_edge(ch, c, j);
            }
        } else {
            assert(d != c);
            assert(s2[d as int] == s1[d as int]);
            if q == c {
                assert(s1[ch[c][j] as int] is None);
            }
        }
    }
}

/// Moves every child of `parent` outside the hidden closure `hc` (depth
/// first) into the body of its parent; `marks` tells which nodes are in
/// `hc`.
fn apply_children(
    stmts: &mut Vec<Option<CssStmt>>,
    ch_map: &HashMap<usize, Vec<usize>>,
    marks: &Vec<bool>,
    parent: usize,
    Ghost(ch): Ghost<Map<usize, Seq<usize>>>,
    Ghost(hc): Ghost<Set<usize>>,
)
    requires
        ch == children_view(ch_map@),
        acyclic(ch),
        ch.dom().contains(parent),
        parent != 0,
        !hc.contains(parent),
        marks@.len() == old(stmts)@.len(),
        forall|k: int| 0 <= k < marks@.len() ==> (#[trigger] marks@[k] <==> hc.contains(k as usize)),
        appliable(slots(old(stmts)@), ch, hc),
    ensures
        ({
            let s0 = slots(old(stmts)@);
            let s1 = slots(final(stmts)@);
            &&& final(stmts)@.len() == old(stmts)@.len()
            &&& s1 == apply_spec(s0, ch, hc, parent)
            &&& appliable(s1, ch, hc)
            &&& forall|j: int|
                0 <= j < ch[parent].len() && !hc.contains(ch[parent][j])
                    ==> (#[trigger] s1[ch[parent][j] as int]) is None
            &&& forall|x: int| 0 <= x < s0.len() && s0[x] is None ==> (#[trigger] s1[x]) is None
        }),
    decreases rank_of(ch)(parent),
{
    broadcast use vstd::std_specs::hash::group_hash_axioms;

    let ghost s0 = slots(stmts@);
    let children = match ch_map.get(&parent) {
        Some(c) => c,
        None => vstd::pervasive::unreached(),
    };
    assert(children@ == ch[parent]);
    let mut i: usize = 0;
    while i < children.len()
        invariant
            ch == children_view(ch_map@),
            acyclic(ch),
            ch.dom().contains(parent),
            parent != 0,
            !hc.contains(parent),
            marks@.len() == s0.len(),
            forall|k: int| 0 <= k < marks@.len() ==> (#[trigger] marks@[k] <==> hc.contains(k as usize)),
            children@ == ch[parent],
            i <= children.len(),
            stmts@.len() == s0.len(),
            appliable(slots(stmts@), ch, hc),
            apply_list(slots(stmts@), ch, hc, parent, i as int) == apply_list(s0, ch, hc, parent, 0),
            forall|j: int|
                0 <= j < i && !hc.contains(ch[parent][j])
                    ==> (#[trigger] slots(stmts@)[ch[parent][j] as int]) is None,
            forall|x: int| 0 <= x < s0.len() && s0[x] is None ==> (#[trigger] slots(stmts@)[x]) is None,
        decreases children.len() - i,
    {
        let child = children[i];
        let ghost sc = slots(stmts@);
        proof {
            lemma_rank_edge(ch, parent, i as int);
            assert(child < stmts@.len());
            assert(parent < stmts@.len());
        }
        if marks[child] {
            proof {
                assert(hc.contains(child));
                assert(apply_list(sc, ch, hc, parent, i as int) == apply_list(sc, ch, hc, parent, i + 1));
            }
        } else {
            proof {
                assert(!hc.contains(child));
                assert(child != 0);
            }
            if ch_map.contains_key(&child) {
                apply_children(stmts, ch_map, marks, child, Ghost(ch), Ghost(hc));
            }
            let ghost s1 = slots(stmts@);
            assert(s1 == if ch.dom().contains(child) {
                apply_spec(sc, ch, hc, child)
            } else {
                sc
            });
            assert forall|x: int| 0 <= x < s0.len() && s0[x] is None implies (#[trigger] s1[x]) is None by {
                assert(sc[x] is None);
            }
            assert forall|j: int| 0 <= j < i && !hc.contains(ch[parent][j]) implies (
            #[trigger] s1[ch[parent][j] as int]) is None by {
                assert(sc[ch[parent][j] as int] is None);
            }
            let taken = stmts[child].take();
            match taken {
                Some(st) => {
                    proof {
                        lemma_move_appliable(s1, ch, hc, parent, i as int);
                    }
                    let mut p = match stmts[parent].take() {
                        Some(p) => p,
                        None => vstd::pervasive::unreached(),
                    };
                    proof {
                        assert(is_container(p@));
                    }
                    p.push_child(st);
                    stmts.set(parent, Some(p));
                    proof {
                        assert(slots(stmts@) =~= moved_into(s1, child, parent));
                        assert(s1[parent as int] is Some);
                    }
                },
                None => {
                    proof {
                        assert(slots(stmts@) =~= s1);
                    }
                },
            }
            proof {
                let s2 = slots(stmts@);
                assert(apply_list(sc, ch, hc, parent, i as int) == apply_list(s2, ch, hc, parent, i + 1));
            }
        }
        proof {
            let s2 = slots(stmts@);
            assert forall|j: int| 0 <= j < i + 1 && !hc.contains(ch[parent][j]) implies (
            #[trigger] s2[ch[parent][j] as int]) is None by {
                lemma_rank_edge(ch, parent, j);
                if j < i {
                    assert(sc[ch[parent][j] as int] is None);
                }
            }
            assert forall|x: int| 0 <= x < s0.len() && s0[x] is None implies (#[trigger] s2[x]) is None by {
                assert(sc[x] is None);
            }
        }
        i = i + 1;
    }
    assert(apply_spec(s0, ch, hc, parent) == apply_list(s0, ch, hc, parent, 0));
}

// ---------------------------------------------------------------------------
// Hidden nodes

/// The hidden nodes and all their descendants.
pub open spec fn hidden_closure(v: CssTreeView) -> Set<usize> {
    Set::new(|x: usize| exists|h: usize| v.hidden.contains(h) && #[trigger] reaches(v.children, h, x))
}

/// The number of unmarked entries.
pub open spec fn unmarked(m: Seq<bool>) -> nat
    decreases m.len(),
{
    if m.len() == 0 {
        0
    } else {
        unmarked(m.drop_last()) + if m.last() {
            0nat
        } else {
            1nat
        }
    }
}

proof fn lemma_unmarked_update(m: Seq<bool>, i: int)
    requires
        0 <= i < m.len(),
        !m[i],
    ensures
        unmarked(m.update(i, true)) + 1 == unmarked(m),
    decreases m.len(),
{
    let m2 = m.update(i, true);
    if i == m.len() - 1 {
        assert(m2.drop_last() =~= m.drop_last());
    } else {
        assert(m2.drop_last() =~= m.drop_last().update(i, true));
        lemma_unmarked_update(m.drop_last(), i);
    }
}

proof fn lemma_reaches_append(ch: Map<usize, Seq<usize>>, a: usize, x: usize, j: int)
    requires
        reaches(ch, a, x),
        ch.dom().contains(x),
        0 <= j < ch[x].len(),
    ensures
        reaches(ch, a, ch[x][j]),
{
    let path = choose|path: Seq<usize>| #[trigger] is_path(ch, path) && path[0] == a && path.last() == x;
    let np = path.push(ch[x][j]);
    assert forall|k: int| 0 <= k < np.len() - 1 implies ch.dom().contains(#[trigger] np[k])
        && ch[np[k]].contains(np[k + 1]) by {
        if k == path.len() - 1 {
            assert(ch[x][j] == np[k + 1]);
        } else {
            assert(np[k] == path[k]);
            assert(np[k + 1] == path[k + 1]);
        }
    }
    assert(is_path(ch, np) && np[0] == a && np.last() == ch[x][j]);
}

proof fn lemma_path_marked(v: CssTreeView, m: Seq<bool>, path: Seq<usize>, k: int)
    requires
        v.wf(),
        m.len() == v.stmts.len(),
        is_path(v.children, path),
        path[0] < m.len(),
        m[path[0] as int],
        0 <= k < path.len(),
        forall|x: int, j: int|
            0 <= x < m.len() && m[x] && v.children.dom().contains(x as usize) && 0 <= j
                < v.children[x as usize].len() ==> #[trigger] m[v.children[x as usize][j] as int],
    ensures
        path[k] < m.len(),
        m[path[k] as int],
    decreases k,
{
    if k > 0 {
        lemma_path_marked(v, m, path, k - 1);
        let x = path[k - 1];
        assert(v.children.dom().contains(x) && v.children[x].contains(path[k]));
        let j = choose|j: int| 0 <= j < v.children[x].len() && v.children[x][j] == path[k];
        assert(m[v.children[x as int as usize][j] as int]);
    }
}

impl CssTree {
    /// Marks, for each slot, whether it is hidden or below a hidden node.
    fn hidden_marks(&self) -> (marks: Vec<bool>)
        requires
            self@.wf(),
        ensures
            marks@.len() == self@.stmts.len(),
            forall|i: int|
                0 <= i < marks@.len() ==> (#[trigger] marks@[i] <==> hidden_closure(self@).contains(
                    i as usize,
                )),
    {
        broadcast use vstd::std_specs::hash::group_hash_axioms;

        let ghost v = self@;
        let ghost hc = hidden_closure(v);
        let n = self.stmts.len();
        let mut marks: Vec<bool> = Vec::new();
        let mut stack: Vec<usize> = Vec::new();
        let mut i: usize = 0;
        while i < n
            invariant
                self@ == v,
                v.wf(),
                n == v.stmts.len(),
                hc == hidden_closure(v),
                i <= n,
                marks@.len() == i,
                forall|k: int| 0 <= k < i ==> (#[trigger] marks@[k] <==> v.hidden.contains(k as usize)),
                forall|k: int| 0 <= k < stack@.len() ==> #[trigger] stack@[k] < i && marks@[stack@[k] as int],
                forall|k: int| 0 <= k < i && marks@[k] ==> #[trigger] stack@.contains(k as usize),
                stack@.no_duplicates(),
            decreases n - i,
        {
            let h = self.hidden.contains(&i);
            let ghost prev = stack@;
            marks.push(h);
            if h {
                proof {
                    assert(!stack@.contains(i));
                }
                stack.push(i);
            }
            proof {
                if h {
                    assert(stack@.last() == i);
                }
                assert forall|k: int| 0 <= k < i + 1 && marks@[k] implies #[trigger] stack@.contains(k as usize) by {
                    if k == i {
                        assert(stack@[stack@.len() - 1] == i);
                    } else {
                        assert(prev.contains(k as usize));
                        let w = choose|w: int| 0 <= w < prev.len() && prev[w] == k as usize;
                        assert(stack@[w] == prev[w]);
                    }
                }
            }
            i = i + 1;
        }
        proof {
            assert forall|k: int| 0 <= k < n && #[trigger] marks@[k] implies hc.contains(k as usize) by {
                lemma_reaches_self(v.children, k as usize);
            }
        }
        while stack.len() > 0
            invariant
                self@ == v,
                v.wf(),
                n == v.stmts.len(),
                hc == hidden_closure(v),
                marks@.len() == n,
                forall|k: int| 0 <= k < n && #[trigger] marks@[k] ==> hc.contains(k as usize),
                forall|k: int| 0 <= k < n && v.hidden.contains(k as usize) ==> #[trigger] marks@[k],
                forall|k: int| 0 <= k < stack@.len() ==> #[trigger] stack@[k] < n && marks@[stack@[k] as int],
                stack@.no_duplicates(),
                forall|x: int, j: int|
                    0 <= x < n && marks@[x] && !stack@.contains(x as usize) && v.children.dom().contains(
                        x as usize,
                    ) && 0 <= j < v.children[x as usize].len() ==> #[trigger] marks@[v.children[x as usize][j] as int],
            decreases unmarked(marks@), stack@.len(),
        {
            let ghost old_stack = stack@;
            let ghost old_marks = marks@;
            let x = stack.pop().unwrap();
            proof {
                assert(stack@ == old_stack.drop_last());
                assert(x == old_stack[old_stack.len() - 1]);
                assert(!stack@.contains(x)) by {
                    if stack@.contains(x) {
                        let k = choose|k: int| 0 <= k < stack@.len() && stack@[k] == x;
                        assert(old_stack[k] == old_stack[old_stack.len() - 1]);
                    }
                }
            }
            let ghost base = stack@;
            match self.parent_to_child.get(&x) {
                Some(children) => {
                    let mut j: usize = 0;
                    while j < children.len()
                        invariant
                            self@ == v,
                            v.wf(),
                            n == v.stmts.len(),
                            hc == hidden_closure(v),
                            v.children.dom().contains(x),
                            children@ == v.children[x],
                            x < n,
                            marks@[x as int],
                            !base.contains(x),
                            old_stack == base.push(x),
                            j <= children.len(),
                            marks@.len() == n,
                            stack@.len() >= base.len(),
                            stack@.subrange(0, base.len() as int) == base,
                            unmarked(marks@) + (stack@.len() - base.len()) == unmarked(old_marks),
                            forall|k: int| 0 <= k < n && old_marks[k] ==> #[trigger] marks@[k],
                            forall|k: int| 0 <= k < n && #[trigger] marks@[k] ==> hc.contains(k as usize),
                            forall|k: int| 0 <= k < stack@.len() ==> #[trigger] stack@[k] < n && marks@[stack@[k] as int],
                            forall|k: int| base.len() <= k < stack@.len() ==> !old_marks[#[trigger] stack@[k] as int],
                            stack@.no_duplicates(),
                            forall|m: int| 0 <= m < j ==> #[trigger] marks@[children@[m] as int],
                            forall|k: int| 0 <= k < n && #[trigger] marks@[k] && !old_marks[k] ==> stack@.contains(k as usize),
                        decreases children.len() - j,
                    {
                        let c = children[j];
                        proof {
                            self.lemma_wf_bounds(x, j as int);
                        }
                        if !marks[c] {
                            proof {
                                lemma_unmarked_update(marks@, c as int);
                                let h = choose|h: usize| v.hidden.contains(h) && #[trigger] reaches(v.children, h, x);
                                lemma_reaches_append(v.children, h, x, j as int);
                                assert(hc.contains(c));
                                assert(!stack@.contains(c)) by {
                                    if stack@.contains(c) {
                                        let k = choose|k: int| 0 <= k < stack@.len() && stack@[k] == c;
                                        assert(marks@[stack@[k] as int]);
                                    }
                                }
                            }
                            let ghost prev = stack@;
                            marks.set(c, true);
                            stack.push(c);
                            proof {
                                assert(stack@.subrange(0, base.len() as int) =~= base);
                                assert forall|k: int| 0 <= k < n && #[trigger] marks@[k] && !old_marks[k] implies stack@.contains(k as usize) by {
                                    if k == c {
                                        assert(stack@[stack@.len() - 1] == c);
                                    } else {
                                        assert(prev.contains(k as usize));
                                        let w = choose|w: int| 0 <= w < prev.len() && prev[w] == k as usize;
                                        assert(stack@[w] == prev[w]);
                                    }
                                }
                            }
                        }
                        j = j + 1;
                    }
                },
                None => {},
            }
            proof {
                assert forall|y: int, jj: int|
                    0 <= y < n && marks@[y] && !stack@.contains(y as usize) && v.children.dom().contains(
                        y as usize,
                    ) && 0 <= jj < v.children[y as usize].len() implies #[trigger] marks@[v.children[y as usize][jj] as int] by {
                    if y != x {
                        if old_marks[y] {
                            assert(!old_stack.contains(y as usize)) by {
                                if old_stack.contains(y as usize) {
                                    let k = choose|k: int| 0 <= k < old_stack.len() && old_stack[k] == y as usize;
                                    if k < base.len() {
                                        assert(stack@[k] == base[k]);
                                    }
                                }
                            }
                            self.lemma_wf_bounds(y as usize, jj);
                        } else {
                            assert(stack@.contains(y as usize));
                        }
                    }
                }
            }
        }
        proof {
            assert forall|k: int| 0 <= k < n && hc.contains(k as usize) implies #[trigger] marks@[k] by {
                let h = choose|h: usize| v.hidden.contains(h) && #[trigger] reaches(v.children, h, k as usize);
                let path = choose|path: Seq<usize>| #[trigger] is_path(v.children, path) && path[0] == h && path.last() == k as usize;
                if path.len() > 1 {
                    assert(v.children.dom().contains(path[0]));
                }
                assert(marks@[h as int]);
                lemma_path_marked(v, marks@, path, path.len() - 1);
            }
        }
        marks
    }
}


// ---------------------------------------------------------------------------
// Finishing the tree

/// Slots after each slot from `idx` up to (not including) `end` that is not
/// in `hc`, holds a statement and has children has had its children
/// applied, in order.
pub open spec fn top_apply(
    s: Seq<Option<CssStmtView>>,
    ch: Map<usize, Seq<usize>>,
    hc: Set<usize>,
    idx: int,
    end: int,
) -> Seq<Option<CssStmtView>>
    decreases end - idx,
{
    if idx >= end {
        s
    } else {
        let s1 = if !hc.contains(idx as usize) && s[idx] is Some && ch.dom().contains(idx as usize) {
            apply_spec(s, ch, hc, idx as usize)
        } else {
            s
        };
        top_apply(s1, ch, hc, idx + 1, end)
    }
}

/// The statements of the first `n` slots that are not in `hc`, in order.
pub open spec fn collect_visible(s: Seq<Option<CssStmtView>>, hc: Set<usize>, n: int) -> Seq<
    CssStmtView,
>
    decreases n,
{
    if n <= 0 {
        Seq::empty()
    } else {
        let r = collect_visible(s, hc, n - 1);
        if !hc.contains((n - 1) as usize) && s[n - 1] is Some {
            r.push(s[n - 1].unwrap())
        } else {
            r
        }
    }
}

/// The output of a finished tree: the children that are neither hidden nor
/// below a hidden node, applied into the body of every such statement (but
/// the one in the last slot), then every statement that is neither hidden
/// nor below a hidden node.
pub open spec fn finished(v: CssTreeView) -> Seq<CssStmtView> {
    let hc = hidden_closure(v);
    collect_visible(
        top_apply(v.stmts, v.children, hc, 1, v.stmts.len() - 1),
        hc,
        v.stmts.len() as int,
    )
}

impl CssTree {
    /// Applies the links into the bodies of the statements and returns the
    /// statements that are neither hidden nor below a hidden node. A hidden
    /// node, and every node below it, is left out of the output, also where
    /// it is the child of a statement that is output.
    pub fn finish(self) -> (r: Vec<CssStmt>)
        requires
            self@.wf(),
            appliable(self@.stmts, self@.children, hidden_closure(self@)),
        ensures
            stmts_view(r@) == finished(self@),
    {
        let ghost v = self@;
        let ghost hc = hidden_closure(v);
        let marks = self.hidden_marks();
        let CssTree { stmts, parent_to_child, child_to_parent: _, hidden: _ } = self;
        let mut stmts = stmts;
        let ghost ch = v.children;
        let ghost s0 = slots(stmts@);
        assert(s0 =~= v.stmts);
        let n = stmts.len();
        let mut idx: usize = 1;
        while idx < n - 1
            invariant
                ch == children_view(parent_to_child@),
                v.wf(),
                ch == v.children,
                hc == hidden_closure(v),
                n == stmts@.len(),
                n == v.stmts.len(),
                marks@.len() == n,
                forall|i: int| 0 <= i < n ==> (#[trigger] marks@[i] <==> hc.contains(i as usize)),
                1 <= idx,
                idx <= n || n == 1,
                appliable(slots(stmts@), ch, hc),
                top_apply(slots(stmts@), ch, hc, idx as int, n - 1) == top_apply(s0, ch, hc, 1, n - 1),
            decreases n - idx,
        {
            let ghost s = slots(stmts@);
            proof {
                assert(s[idx as int] == opt_view(stmts@[idx as int]));
            }
            let skip = marks[idx] || stmts[idx].is_none() || !parent_to_child.contains_key(&idx);
            if !skip {
                apply_children(&mut stmts, &parent_to_child, &marks, idx, Ghost(ch), Ghost(hc));
            }
            idx = idx + 1;
        }
        let ghost sf = slots(stmts@);
        assert(sf == top_apply(s0, ch, hc, 1, n - 1));
        let mut out: Vec<CssStmt> = Vec::new();
        let mut i: usize = 0;
        while i < n
            invariant
                n == stmts@.len(),
                marks@.len() == n,
                forall|k: int| 0 <= k < n ==> (#[trigger] marks@[k] <==> hc.contains(k as usize)),
                i <= n,
                forall|k: int| i <= k < n ==> #[trigger] slots(stmts@)[k] == sf[k],
                sf.len() == n,
                stmts_view(out@) == collect_visible(sf, hc, i as int),
            decreases n - i,
        {
            let ghost before = stmts@;
            let taken = stmts[i].take();
            proof {
                assert(slots(before)[i as int] == opt_view(before[i as int]));
                assert(sf[i as int] == opt_view(before[i as int]));
                assert forall|k: int| i + 1 <= k < n implies #[trigger] slots(stmts@)[k] == sf[k] by {
                    assert(slots(before)[k] == sf[k]);
                }
            }
            if !marks[i] {
                match taken {
                    Some(st) => {
                        proof { lemma_stmts_view_push(out@, st); }
                        out.push(st);
                    },
                    None => {},
                }
            }
            i = i + 1;
        }
        out
    }
}


// ---------------------------------------------------------------------------
// Cloning subtrees

/// The copy of `s` placed in slot `key`: a style rule gets a selector of
/// its own, keyed by `key`, with the same list, and an empty body.
pub open spec fn cloned_view(s: CssStmtView, key: usize) -> CssStmtView {
    match s {
        CssStmtView::RuleSet { selector, body: _, is_group_end } => CssStmtView::RuleSet {
            selector: ExtendedSelector { key, list: selector.list },
            body: Seq::empty(),
            is_group_end,
        },
        other => other,
    }
}

/// `sel` after `s` was copied into slot `key`: the key of a style rule's
/// selector is mapped to the selector of the copy.
pub open spec fn map_cloned_selector(
    sel: Map<usize, ExtendedSelector>,
    s: CssStmtView,
    key: usize,
) -> Map<usize, ExtendedSelector> {
    match s {
        CssStmtView::RuleSet { selector, .. } => sel.insert(
            selector.key,
            ExtendedSelector { key, list: selector.list },
        ),
        _ => sel,
    }
}

/// `v` with `s` added in a new slot as the last child of `p`.
pub open spec fn with_child(v: CssTreeView, s: CssStmtView, p: usize) -> CssTreeView {
    CssTreeView {
        stmts: v.stmts.push(Some(s)),
        children: v.children.insert(p, v.children_of(p).push(v.stmts.len() as usize)),
        parents: v.parents.insert(v.stmts.len() as usize, p),
        hidden: v.hidden,
    }
}

/// The tree and selector map after the subtree at `idx` (its shape taken
/// from `ch0`) is copied under `np`: a tombstone is skipped; otherwise the
/// statement is copied into a new slot, added as the last child of `np`,
/// and its children are copied under the copy, in order.
pub open spec fn clone_spec(
    v: CssTreeView,
    sel: Map<usize, ExtendedSelector>,
    ch0: Map<usize, Seq<usize>>,
    idx: usize,
    np: usize,
) -> (CssTreeView, Map<usize, ExtendedSelector>)
    decreases rank_of(ch0)(idx), 1nat, 0nat,
    when acyclic(ch0)
{
    match v.stmts[idx as int] {
        None => (v, sel),
        Some(s) => {
            let n = v.stmts.len() as usize;
            clone_children_spec(
                with_child(v, cloned_view(s, n), np),
                map_cloned_selector(sel, s, n),
                ch0,
                idx,
                n,
                0,
            )
        },
    }
}

/// The children of `idx` from position `i` on, copied under `new_idx`.
pub open spec fn clone_children_spec(
    v: CssTreeView,
    sel: Map<usize, ExtendedSelector>,
    ch0: Map<usize, Seq<usize>>,
    idx: usize,
    new_idx: usize,
    i: int,
) -> (CssTreeView, Map<usize, ExtendedSelector>)
    decreases rank_of(ch0)(idx), 0nat, children_in(ch0, idx).len() + 1 - i,
    when acyclic(ch0) && 0 <= i
{
    if i >= children_in(ch0, idx).len() {
        (v, sel)
    } else {
        let r = clone_spec(v, sel, ch0, children_in(ch0, idx)[i], new_idx);
        clone_children_spec(r.0, r.1, ch0, idx, new_idx, i + 1)
    }
}

proof fn lemma_clone_spec_len(
    v: CssTreeView,
    sel: Map<usize, ExtendedSelector>,
    ch0: Map<usize, Seq<usize>>,
    idx: usize,
    np: usize,
)
    requires
        acyclic(ch0),
    ensures
        clone_spec(v, sel, ch0, idx, np).0.stmts.len() >= v.stmts.len() + if v.stmts[idx as int] is Some {
            1int
        } else {
            0int
        },
    decreases rank_of(ch0)(idx), 1nat, 0nat,
{
    match v.stmts[idx as int] {
        None => {},
        Some(s) => {
            let n = v.stmts.len() as usize;
            lemma_clone_children_len(
                with_child(v, cloned_view(s, n), np),
                map_cloned_selector(sel, s, n),
                ch0,
                idx,
                n,
                0,
            );
        },
    }
}

proof fn lemma_clone_children_len(
    v: CssTreeView,
    sel: Map<usize, ExtendedSelector>,
    ch0: Map<usize, Seq<usize>>,
    idx: usize,
    new_idx: usize,
    i: int,
)
    requires
        acyclic(ch0),
        0 <= i,
    ensures
        clone_children_spec(v, sel, ch0, idx, new_idx, i).0.stmts.len() >= v.stmts.len(),
    decreases rank_of(ch0)(idx), 0nat, children_in(ch0, idx).len() + 1 - i,
{
    if i < children_in(ch0, idx).len() {
        let c = children_in(ch0, idx)[i];
        lemma_rank_edge(ch0, idx, i);
        lemma_clone_spec_len(v, sel, ch0, c, new_idx);
        let r = clone_spec(v, sel, ch0, c, new_idx);
        lemma_clone_children_len(r.0, r.1, ch0, idx, new_idx, i + 1);
    }
}

proof fn lemma_reach_below(ch: Map<usize, Seq<usize>>, n: nat, a: usize, x: usize)
    requires
        links_below(ch, n),
        a < n,
        reaches(ch, a, x),
    ensures
        x < n,
{
    let path = choose|path: Seq<usize>| #[trigger] is_path(ch, path) && path[0] == a && path.last() == x;
    if path.len() > 1 {
        let k = path.len() - 2;
        assert(ch.dom().contains(path[k]) && ch[path[k]].contains(path[k + 1]));
    }
}

/// A copy of `stmt` for slot `key`; the selector of a style rule's copy is
/// recorded in `selector_map` under the key of the copied statement's selector.
fn clone_for_slot(
    stmt: &CssStmt,
    key: usize,
    selector_map: &mut HashMap<usize, ExtendedSelector>,
) -> (r: CssStmt)
    ensures
        r@ == cloned_view(stmt@, key),
        final(selector_map)@ == map_cloned_selector(old(selector_map)@, stmt@, key),
{
    broadcast use vstd::std_specs::hash::group_hash_axioms;

    match stmt {
        CssStmt::RuleSet { selector, is_group_end, .. } => {
            let old_ptr = selector.rc_ptr();
            let new_selector = ExtendedSelector::new(key, Rc::clone(&selector.list));
            selector_map.insert(old_ptr, new_selector.clone());
            let body: Vec<CssStmt> = Vec::new();
            assert(stmts_view(body@) =~= Seq::<CssStmtView>::empty());
            CssStmt::RuleSet { selector: new_selector, body, is_group_end: *is_group_end }
        },
        other => other.clone_stmt(),
    }
}

impl CssTree {
    fn clone_into(
        &mut self,
        idx: CssTreeIdx,
        new_parent: CssTreeIdx,
        selector_map: &mut HashMap<usize, ExtendedSelector>,
        Ghost(ch0): Ghost<Map<usize, Seq<usize>>>,
        Ghost(n0): Ghost<nat>,
    ) -> (r: CssTreeIdx)
        requires
            old(self)@.wf(),
            acyclic(ch0),
            links_below(ch0, n0),
            n0 <= old(self)@.stmts.len(),
            idx < n0,
            new_parent < old(self)@.stmts.len(),
            old(self)@.stmts[idx as int] is Some ==> !reaches(ch0, idx, new_parent),
            forall|x: usize|
                reaches(ch0, idx, x) ==> #[trigger] old(self)@.children_of(x) == children_in(ch0, x),
            clone_spec(old(self)@, old(selector_map)@, ch0, idx, new_parent).0.stmts.len()
                < usize::MAX,
        ensures
            final(self)@.wf(),
            (final(self)@, final(selector_map)@) == clone_spec(
                old(self)@,
                old(selector_map)@,
                ch0,
                idx,
                new_parent,
            ),
            r == if old(self)@.stmts[idx as int] is Some {
                old(self)@.stmts.len() as usize
            } else {
                idx
            },
            final(self)@.stmts.len() >= old(self)@.stmts.len(),
            forall|p: usize|
                p < old(self)@.stmts.len() && p != new_parent ==> #[trigger] final(self)@.children_of(p)
                    == old(self)@.children_of(p),
        decreases rank_of(ch0)(idx),
    {
        broadcast use vstd::std_specs::hash::group_hash_axioms;

        let ghost v0 = self@;
        let ghost sel0 = selector_map@;
        proof {
            lemma_view_stmts(self);
        }
        let n = self.stmts.len();
        let cloned = match &self.stmts[idx] {
            None => return idx,
            Some(s) => clone_for_slot(s, n, selector_map),
        };
        proof {
            lemma_clone_spec_len(v0, sel0, ch0, idx, new_parent);
        }
        let new_idx = self.add_child(cloned, new_parent);
        let ghost v1 = self@;
        let ghost sel1 = selector_map@;
        proof {
            let s = v0.stmts[idx as int].unwrap();
            assert(v1 == with_child(v0, cloned_view(s, new_idx), new_parent));
            assert(sel1 == map_cloned_selector(sel0, s, new_idx));
            lemma_reaches_self(ch0, idx);
        }
        let mut children: Vec<usize> = Vec::new();
        match self.parent_to_child.get(&idx) {
            Some(c) => {
                let mut k: usize = 0;
                while k < c.len()
                    invariant
                        k <= c.len(),
                        children@ == c@.take(k as int),
                    decreases c.len() - k,
                {
                    children.push(c[k]);
                    k = k + 1;
                    assert(children@ =~= c@.take(k as int));
                }
                assert(c@.take(k as int) =~= c@);
                assert(children@ == v1.children_of(idx));
            },
            None => {
                assert(children@ =~= v1.children_of(idx));
            },
        }
        assert(idx != new_parent);
        assert(v1.children_of(idx) == v0.children_of(idx));
        assert(children@ == children_in(ch0, idx));
        let mut i: usize = 0;
        while i < children.len()
            invariant
                self@.wf(),
                acyclic(ch0),
                links_below(ch0, n0),
                n0 <= v0.stmts.len(),
                idx < n0,
                new_idx == v0.stmts.len(),
                children@ == children_in(ch0, idx),
                i <= children.len(),
                self@.stmts.len() > new_idx,
                clone_children_spec(self@, selector_map@, ch0, idx, new_idx, i as int) == clone_spec(
                    v0,
                    sel0,
                    ch0,
                    idx,
                    new_parent,
                ),
                clone_spec(v0, sel0, ch0, idx, new_parent).0.stmts.len() < usize::MAX,
                forall|p: usize|
                    p < v0.stmts.len() && p != new_parent ==> #[trigger] self@.children_of(p)
                        == v0.children_of(p),
                forall|x: usize|
                    reaches(ch0, idx, x) ==> #[trigger] v0.children_of(x) == children_in(ch0, x),
                !reaches(ch0, idx, new_parent),
            decreases children.len() - i,
        {
            let c = children[i];
            proof {
                lemma_rank_edge(ch0, idx, i as int);
                assert(c < n0);
                let r = clone_spec(self@, selector_map@, ch0, c, new_idx);
                lemma_clone_children_len(r.0, r.1, ch0, idx, new_idx, i + 1);
                if reaches(ch0, c, new_idx) {
                    lemma_reach_below(ch0, n0, c, new_idx);
                }
                assert forall|x: usize| reaches(ch0, c, x) implies #[trigger] self@.children_of(x)
                    == children_in(ch0, x) by {
                    lemma_reaches_prepend(ch0, idx, c, x);
                    lemma_reach_below(ch0, n0, c, x);
                    assert(v0.children_of(x) == children_in(ch0, x));
                }
            }
            self.clone_into(c, new_idx, selector_map, Ghost(ch0), Ghost(n0));
            i = i + 1;
        }
        new_idx
    }

    /// Copies the subtree at `idx` under `new_parent` and returns the index
    /// of the copy, or `idx` when it is a tombstone. The selector of each
    /// copied style rule is keyed by the copy's index; `selector_map` maps
    /// the key of each copied selector to the selector of its copy.
    pub fn clone_subtree(
        &mut self,
        idx: CssTreeIdx,
        new_parent: CssTreeIdx,
        selector_map: &mut HashMap<usize, ExtendedSelector>,
    ) -> (r: CssTreeIdx)
        requires
            old(self)@.wf(),
            idx < old(self)@.stmts.len(),
            new_parent < old(self)@.stmts.len(),
            old(self)@.stmts[idx as int] is Some ==> !reaches(old(self)@.children, idx, new_parent),
            clone_spec(old(self)@, old(selector_map)@, old(self)@.children, idx, new_parent).0.stmts.len()
                < usize::MAX,
        ensures
            final(self)@.wf(),
            (final(self)@, final(selector_map)@) == clone_spec(
                old(self)@,
                old(selector_map)@,
                old(self)@.children,
                idx,
                new_parent,
            ),
            r == if old(self)@.stmts[idx as int] is Some {
                old(self)@.stmts.len() as usize
            } else {
                idx
            },
    {
        let ghost ch0 = self@.children;
        let ghost n0 = self@.stmts.len();
        self.clone_into(idx, new_parent, selector_map, Ghost(ch0), Ghost(n0))
    }
}


/// `v` with `s` in a new slot that is hidden.
pub open spec fn with_hidden(v: CssTreeView, s: CssStmtView) -> CssTreeView {
    CssTreeView {
        stmts: v.stmts.push(Some(s)),
        children: v.children,
        parents: v.parents,
        hidden: v.hidden.insert(v.stmts.len() as usize),
    }
}

/// `v` with `c` linked as the last child of `p`.
pub open spec fn with_link(v: CssTreeView, c: usize, p: usize) -> CssTreeView {
    CssTreeView {
        stmts: v.stmts,
        children: v.children.insert(p, v.children_of(p).push(c)),
        parents: v.parents.insert(c, p),
        hidden: v.hidden,
    }
}

/// The tree, selector map and returned index after the subtree at `idx`
/// (its shape taken from `ch0`) is copied into hidden slots: a tombstone
/// is returned as it is; otherwise the statement is copied into a new
/// hidden slot with no parent, and the copies of its children (or the
/// children themselves, for tombstones) are linked under it, in order.
pub open spec fn clone_hidden_spec(
    v: CssTreeView,
    sel: Map<usize, ExtendedSelector>,
    ch0: Map<usize, Seq<usize>>,
    idx: usize,
) -> (CssTreeView, Map<usize, ExtendedSelector>, usize)
    decreases rank_of(ch0)(idx), 1nat, 0nat,
    when acyclic(ch0)
{
    match v.stmts[idx as int] {
        None => (v, sel, idx),
        Some(s) => {
            let n = v.stmts.len() as usize;
            let r = clone_hidden_children_spec(
                with_hidden(v, cloned_view(s, n)),
                map_cloned_selector(sel, s, n),
                ch0,
                idx,
                n,
                0,
            );
            (r.0, r.1, n)
        },
    }
}

/// The children of `idx` from position `i` on, copied into hidden slots
/// and linked under `new_idx`.
pub open spec fn clone_hidden_children_spec(
    v: CssTreeView,
    sel: Map<usize, ExtendedSelector>,
    ch0: Map<usize, Seq<usize>>,
    idx: usize,
    new_idx: usize,
    i: int,
) -> (CssTreeView, Map<usize, ExtendedSelector>)
    decreases rank_of(ch0)(idx), 0nat, children_in(ch0, idx).len() + 1 - i,
    when acyclic(ch0) && 0 <= i
{
    if i >= children_in(ch0, idx).len() {
        (v, sel)
    } else {
        let r = clone_hidden_spec(v, sel, ch0, children_in(ch0, idx)[i]);
        clone_hidden_children_spec(with_link(r.0, r.2, new_idx), r.1, ch0, idx, new_idx, i + 1)
    }
}

proof fn lemma_clone_hidden_len(
    v: CssTreeView,
    sel: Map<usize, ExtendedSelector>,
    ch0: Map<usize, Seq<usize>>,
    idx: usize,
)
    requires
        acyclic(ch0),
    ensures
        clone_hidden_spec(v, sel, ch0, idx).0.stmts.len() >= v.stmts.len() + if v.stmts[idx as int] is Some {
            1int
        } else {
            0int
        },
    decreases rank_of(ch0)(idx), 1nat, 0nat,
{
    match v.stmts[idx as int] {
        None => {},
        Some(s) => {
            let n = v.stmts.len() as usize;
            lemma_clone_hidden_children_len(
                with_hidden(v, cloned_view(s, n)),
                map_cloned_selector(sel, s, n),
                ch0,
                idx,
                n,
                0,
            );
        },
    }
}

proof fn lemma_clone_hidden_children_len(
    v: CssTreeView,
    sel: Map<usize, ExtendedSelector>,
    ch0: Map<usize, Seq<usize>>,
    idx: usize,
    new_idx: usize,
    i: int,
)
    requires
        acyclic(ch0),
        0 <= i,
    ensures
        clone_hidden_children_spec(v, sel, ch0, idx, new_idx, i).0.stmts.len() >= v.stmts.len(),
    decreases rank_of(ch0)(idx), 0nat, children_in(ch0, idx).len() + 1 - i,
{
    if i < children_in(ch0, idx).len() {
        let c = children_in(ch0, idx)[i];
        lemma_rank_edge(ch0, idx, i);
        lemma_clone_hidden_len(v, sel, ch0, c);
        let r = clone_hidden_spec(v, sel, ch0, c);
        lemma_clone_hidden_children_len(with_link(r.0, r.2, new_idx), r.1, ch0, idx, new_idx, i + 1);
    }
}

/// A node that is in no list of children is reached from no other node.
proof fn lemma_no_incoming(ch: Map<usize, Seq<usize>>, t: usize, a: usize)
    requires
        forall|p: usize, j: int|
            ch.dom().contains(p) && 0 <= j < ch[p].len() ==> #[trigger] ch[p][j] != t,
        a != t,
    ensures
        !reaches(ch, a, t),
{
    if reaches(ch, a, t) {
        let path = choose|path: Seq<usize>| #[trigger] is_path(ch, path) && path[0] == a && path.last() == t;
        let k = path.len() - 2;
        assert(ch.dom().contains(path[k]) && ch[path[k]].contains(path[k + 1]));
        let j = choose|j: int| 0 <= j < ch[path[k]].len() && ch[path[k]][j] == path[k + 1];
        assert(ch[path[k]][j] != t);
    }
}

impl CssTree {
    fn clone_hidden_into(
        &mut self,
        idx: CssTreeIdx,
        selector_map: &mut HashMap<usize, ExtendedSelector>,
        Ghost(ch0): Ghost<Map<usize, Seq<usize>>>,
        Ghost(n0): Ghost<nat>,
    ) -> (r: CssTreeIdx)
        requires
            old(self)@.wf(),
            acyclic(ch0),
            links_below(ch0, n0),
            n0 <= old(self)@.stmts.len(),
            idx < n0,
            forall|x: usize|
                reaches(ch0, idx, x) ==> #[trigger] old(self)@.children_of(x) == children_in(ch0, x),
            clone_hidden_spec(old(self)@, old(selector_map)@, ch0, idx).0.stmts.len() < usize::MAX,
        ensures
            final(self)@.wf(),
            (final(self)@, final(selector_map)@, r) == clone_hidden_spec(
                old(self)@,
                old(selector_map)@,
                ch0,
                idx,
            ),
            r == idx || r == old(self)@.stmts.len(),
            r < final(self)@.stmts.len(),
            final(self)@.stmts.len() >= old(self)@.stmts.len(),
            forall|p: usize|
                p < old(self)@.stmts.len() ==> #[trigger] final(self)@.children_of(p)
                    == old(self)@.children_of(p),
            forall|p: usize, j: int|
                p >= old(self)@.stmts.len() && final(self)@.children.dom().contains(p) && 0 <= j
                    < final(self)@.children[p].len() ==> #[trigger] final(self)@.children[p][j]
                    >= old(self)@.stmts.len() || final(self)@.children[p][j] < n0,
        decreases rank_of(ch0)(idx),
    {
        broadcast use vstd::std_specs::hash::group_hash_axioms;

        let ghost v0 = self@;
        let ghost sel0 = selector_map@;
        proof {
            lemma_view_stmts(self);
        }
        let n = self.stmts.len();
        let cloned = match &self.stmts[idx] {
            None => return idx,
            Some(s) => clone_for_slot(s, n, selector_map),
        };
        proof {
            lemma_clone_hidden_len(v0, sel0, ch0, idx);
        }
        let new_idx = self.add_stmt_inner(cloned);
        self.hidden.insert(new_idx);
        let ghost v1 = self@;
        let ghost sel1 = selector_map@;
        proof {
            let s = v0.stmts[idx as int].unwrap();
            assert(v1 == with_hidden(v0, cloned_view(s, new_idx)));
            assert(sel1 == map_cloned_selector(sel0, s, new_idx));
            lemma_reaches_self(ch0, idx);
            assert(valid_rank(v1.children, rank_of(v0.children)));
            assert(v1.wf());
        }
        let mut children: Vec<usize> = Vec::new();
        match self.parent_to_child.get(&idx) {
            Some(c) => {
                let mut k: usize = 0;
                while k < c.len()
                    invariant
                        k <= c.len(),
                        children@ == c@.take(k as int),
                    decreases c.len() - k,
                {
                    children.push(c[k]);
                    k = k + 1;
                    assert(children@ =~= c@.take(k as int));
                }
                assert(c@.take(k as int) =~= c@);
                assert(children@ == v1.children_of(idx));
            },
            None => {
                assert(children@ =~= v1.children_of(idx));
            },
        }
        assert(v1.children_of(idx) == v0.children_of(idx));
        assert(children@ == children_in(ch0, idx));
        let mut i: usize = 0;
        while i < children.len()
            invariant
                self@.wf(),
                acyclic(ch0),
                links_below(ch0, n0),
                n0 <= v0.stmts.len(),
                idx < n0,
                new_idx == v0.stmts.len(),
                children@ == children_in(ch0, idx),
                i <= children.len(),
                self@.stmts.len() > new_idx,
                clone_hidden_children_spec(self@, selector_map@, ch0, idx, new_idx, i as int).0
                    == clone_hidden_spec(v0, sel0, ch0, idx).0,
                clone_hidden_children_spec(self@, selector_map@, ch0, idx, new_idx, i as int).1
                    == clone_hidden_spec(v0, sel0, ch0, idx).1,
                clone_hidden_spec(v0, sel0, ch0, idx).2 == new_idx,
                clone_hidden_spec(v0, sel0, ch0, idx).0.stmts.len() < usize::MAX,
                forall|p: usize| p < v0.stmts.len() ==> #[trigger] self@.children_of(p) == v0.children_of(p),
                forall|p: usize, j: int|
                    p >= v0.stmts.len() && self@.children.dom().contains(p) && 0 <= j
                        < self@.children[p].len() ==> #[trigger] self@.children[p][j] >= v0.stmts.len()
                        || self@.children[p][j] < n0,
                forall|p: usize, j: int|
                    self@.children.dom().contains(p) && 0 <= j < self@.children[p].len()
                        ==> #[trigger] self@.children[p][j] != new_idx,
                forall|x: usize|
                    reaches(ch0, idx, x) ==> #[trigger] v0.children_of(x) == children_in(ch0, x),
            decreases children.len() - i,
        {
            let c = children[i];
            let ghost before = self@;
            proof {
                lemma_rank_edge(ch0, idx, i as int);
                assert(c < n0);
                let r = clone_hidden_spec(self@, selector_map@, ch0, c);
                lemma_clone_hidden_children_len(with_link(r.0, r.2, new_idx), r.1, ch0, idx, new_idx, i + 1);
                assert forall|x: usize| reaches(ch0, c, x) implies #[trigger] self@.children_of(x)
                    == children_in(ch0, x) by {
                    lemma_reaches_prepend(ch0, idx, c, x);
                    lemma_reach_below(ch0, n0, c, x);
                    assert(v0.children_of(x) == children_in(ch0, x));
                }
            }
            let cloned_child = self.clone_hidden_into(c, selector_map, Ghost(ch0), Ghost(n0));
            let ghost mid = self@;
            proof {
                assert forall|p: usize, j: int|
                    mid.children.dom().contains(p) && 0 <= j < mid.children[p].len()
                        implies #[trigger] mid.children[p][j] != new_idx by {
                    if p < before.stmts.len() {
                        assert(mid.children_of(p) == before.children_of(p));
                        assert(before.children[p][j] == mid.children[p][j]);
                    }
                }
                lemma_no_incoming(mid.children, new_idx, cloned_child);
            }
            self.link_child_to_parent(cloned_child, new_idx);
            proof {
                let fin = self@;
                assert(fin == with_link(mid, cloned_child, new_idx));
                assert forall|p: usize| p < v0.stmts.len() implies #[trigger] fin.children_of(p)
                    == v0.children_of(p) by {
                    assert(mid.children_of(p) == before.children_of(p));
                }
                assert forall|p: usize, j: int|
                    p >= v0.stmts.len() && fin.children.dom().contains(p) && 0 <= j
                        < fin.children[p].len() implies #[trigger] fin.children[p][j] >= v0.stmts.len()
                        || fin.children[p][j] < n0 by {
                    if p == new_idx {
                        if j < fin.children[p].len() - 1 {
                            assert(fin.children[p][j] == mid.children_of(p)[j]);
                            assert(mid.children_of(p) == before.children_of(p));
                        }
                    } else if p < before.stmts.len() {
                        assert(mid.children_of(p) == before.children_of(p));
                        assert(fin.children[p][j] == before.children[p][j]);
                    } else {
                        assert(fin.children[p][j] == mid.children[p][j]);
                    }
                }
                assert forall|p: usize, j: int|
                    fin.children.dom().contains(p) && 0 <= j < fin.children[p].len()
                        implies #[trigger] fin.children[p][j] != new_idx by {
                    if p == new_idx && j == fin.children[p].len() - 1 {
                    } else {
                        assert(fin.children[p][j] == mid.children[p][j]);
                    }
                }
            }
            i = i + 1;
        }
        new_idx
    }

    /// Copies the subtree at `idx` into hidden slots, with no parent, and
    /// returns the index of the copy, or `idx` when it is a tombstone. The
    /// copies stay out of the output of `finish` but can be copied again.
    pub fn clone_subtree_hidden(
        &mut self,
        idx: CssTreeIdx,
        selector_map: &mut HashMap<usize, ExtendedSelector>,
    ) -> (r: CssTreeIdx)
        requires
            old(self)@.wf(),
            idx < old(self)@.stmts.len(),
            clone_hidden_spec(old(self)@, old(selector_map)@, old(self)@.children, idx).0.stmts.len()
                < usize::MAX,
        ensures
            final(self)@.wf(),
            (final(self)@, final(selector_map)@, r) == clone_hidden_spec(
                old(self)@,
                old(selector_map)@,
                old(self)@.children,
                idx,
            ),
    {
        let ghost ch0 = self@.children;
        let ghost n0 = self@.stmts.len();
        self.clone_hidden_into(idx, selector_map, Ghost(ch0), Ghost(n0))
    }
}

// ---------------------------------------------------------------------------
// Laws

/// The statement just read back is the one just added: the new slot holds
/// it, and the slots before it are as they were.
pub proof fn lemma_read_after_add(v: CssTreeView, s: CssStmtView, p: usize)
    requires
        v.wf(),
    ensures
        with_child(v, s, p).stmts[v.stmts.len() as int] == Some(s),
        with_child(v, s, p).children_of(p).last() == v.stmts.len(),
        with_child(v, s, p).parents[v.stmts.len() as usize] == p,
        forall|i: int| 0 <= i < v.stmts.len() ==> #[trigger] with_child(v, s, p).stmts[i] == v.stmts[i],
{
}

/// A new slot `k` holds a statement, and a style rule there has a
/// selector of its own, keyed by `k`.
pub open spec fn keyed_copy(o: Option<CssStmtView>, k: int) -> bool {
    &&& o is Some
    &&& o.unwrap() matches CssStmtView::RuleSet { selector, .. } ==> selector.key == k as usize
}

/// `r` keeps every slot of `v` and the children of every node of `v` but
/// `except`, and each slot it adds is a keyed copy.
pub open spec fn copy_frame(v: CssTreeView, r: CssTreeView, except: usize) -> bool {
    &&& r.stmts.len() >= v.stmts.len()
    &&& forall|i: int| 0 <= i < v.stmts.len() ==> #[trigger] r.stmts[i] == v.stmts[i]
    &&& forall|p: usize| p < v.stmts.len() && p != except ==> #[trigger] r.children_of(p) == v.children_of(p)
    &&& forall|k: int| v.stmts.len() <= k < r.stmts.len() ==> keyed_copy(#[trigger] r.stmts[k], k)
}

proof fn lemma_copy_frame_trans(
    a: CssTreeView,
    b: CssTreeView,
    c: CssTreeView,
    x: usize,
    y: usize,
    z: usize,
)
    requires
        copy_frame(a, b, x),
        copy_frame(b, c, y),
        x == z || x >= a.stmts.len(),
        y == z || y >= a.stmts.len(),
    ensures
        copy_frame(a, c, z),
{
    assert forall|k: int| a.stmts.len() <= k < c.stmts.len() implies keyed_copy(#[trigger] c.stmts[k], k) by {
        if k < b.stmts.len() {
            assert(c.stmts[k] == b.stmts[k]);
            assert(keyed_copy(b.stmts[k], k));
        }
    }
    assert forall|i: int| 0 <= i < a.stmts.len() implies #[trigger] c.stmts[i] == a.stmts[i] by {
        assert(c.stmts[i] == b.stmts[i]);
    }
    assert forall|p: usize| p < a.stmts.len() && p != z implies #[trigger] c.children_of(p) == a.children_of(p) by {
        assert(c.children_of(p) == b.children_of(p));
    }
}

proof fn lemma_clone_frame(
    v: CssTreeView,
    sel: Map<usize, ExtendedSelector>,
    ch0: Map<usize, Seq<usize>>,
    idx: usize,
    np: usize,
)
    requires
        acyclic(ch0),
        clone_spec(v, sel, ch0, idx, np).0.stmts.len() <= usize::MAX,
    ensures
        copy_frame(v, clone_spec(v, sel, ch0, idx, np).0, np),
        clone_spec(v, sel, ch0, idx, np).0.hidden == v.hidden,
    decreases rank_of(ch0)(idx), 1nat, 0nat,
{
    lemma_clone_spec_len(v, sel, ch0, idx, np);
    match v.stmts[idx as int] {
        None => {},
        Some(s) => {
            let n = v.stmts.len() as usize;
            let v1 = with_child(v, cloned_view(s, n), np);
            let sel1 = map_cloned_selector(sel, s, n);
            assert(copy_frame(v, v1, np));
            lemma_clone_children_frame(v1, sel1, ch0, idx, n, 0);
            lemma_copy_frame_trans(v, v1, clone_children_spec(v1, sel1, ch0, idx, n, 0).0, np, n, np);
        },
    }
}

proof fn lemma_clone_children_frame(
    v: CssTreeView,
    sel: Map<usize, ExtendedSelector>,
    ch0: Map<usize, Seq<usize>>,
    idx: usize,
    new_idx: usize,
    i: int,
)
    requires
        acyclic(ch0),
        0 <= i,
        clone_children_spec(v, sel, ch0, idx, new_idx, i).0.stmts.len() <= usize::MAX,
    ensures
        copy_frame(v, clone_children_spec(v, sel, ch0, idx, new_idx, i).0, new_idx),
        clone_children_spec(v, sel, ch0, idx, new_idx, i).0.hidden == v.hidden,
    decreases rank_of(ch0)(idx), 0nat, children_in(ch0, idx).len() + 1 - i,
{
    if i < children_in(ch0, idx).len() {
        let c = children_in(ch0, idx)[i];
        lemma_rank_edge(ch0, idx, i);
        let r = clone_spec(v, sel, ch0, c, new_idx);
        lemma_clone_children_len(r.0, r.1, ch0, idx, new_idx, i + 1);
        lemma_clone_frame(v, sel, ch0, c, new_idx);
        lemma_clone_children_frame(r.0, r.1, ch0, idx, new_idx, i + 1);
        lemma_copy_frame_trans(
            v,
            r.0,
            clone_children_spec(r.0, r.1, ch0, idx, new_idx, i + 1).0,
            new_idx,
            new_idx,
            new_idx,
        );
    }
}

/// Copying a subtree leaves every existing slot, and the children of every
/// existing node but the new parent, as they were; every slot it adds holds
/// a statement, and a copied style rule has a selector of its own, keyed by
/// its slot, so that extending one never changes the other.
pub proof fn lemma_clone_subtree_keeps_existing(
    v: CssTreeView,
    sel: Map<usize, ExtendedSelector>,
    idx: usize,
    np: usize,
)
    requires
        v.wf(),
        clone_spec(v, sel, v.children, idx, np).0.stmts.len() < usize::MAX,
    ensures
        copy_frame(v, clone_spec(v, sel, v.children, idx, np).0, np),
        clone_spec(v, sel, v.children, idx, np).0.hidden == v.hidden,
{
    lemma_clone_frame(v, sel, v.children, idx, np);
}

/// `r` hides what `v` hides and every slot that it adds.
pub open spec fn hides_additions(v: CssTreeView, r: CssTreeView) -> bool {
    forall|k: usize|
        #[trigger] r.hidden.contains(k) <==> (v.hidden.contains(k) || v.stmts.len() <= k
            < r.stmts.len())
}

proof fn lemma_clone_hidden_frame(
    v: CssTreeView,
    sel: Map<usize, ExtendedSelector>,
    ch0: Map<usize, Seq<usize>>,
    idx: usize,
)
    requires
        acyclic(ch0),
        clone_hidden_spec(v, sel, ch0, idx).0.stmts.len() <= usize::MAX,
    ensures
        copy_frame(v, clone_hidden_spec(v, sel, ch0, idx).0, v.stmts.len() as usize),
        hides_additions(v, clone_hidden_spec(v, sel, ch0, idx).0),
    decreases rank_of(ch0)(idx), 1nat, 0nat,
{
    lemma_clone_hidden_len(v, sel, ch0, idx);
    match v.stmts[idx as int] {
        None => {},
        Some(s) => {
            let n = v.stmts.len() as usize;
            let v1 = with_hidden(v, cloned_view(s, n));
            let sel1 = map_cloned_selector(sel, s, n);
            assert(copy_frame(v, v1, n));
            lemma_clone_hidden_children_frame(v1, sel1, ch0, idx, n, 0);
            let r = clone_hidden_children_spec(v1, sel1, ch0, idx, n, 0).0;
            lemma_copy_frame_trans(v, v1, r, n, n, n);
        },
    }
}

proof fn lemma_clone_hidden_children_frame(
    v: CssTreeView,
    sel: Map<usize, ExtendedSelector>,
    ch0: Map<usize, Seq<usize>>,
    idx: usize,
    new_idx: usize,
    i: int,
)
    requires
        acyclic(ch0),
        0 <= i,
        clone_hidden_children_spec(v, sel, ch0, idx, new_idx, i).0.stmts.len() <= usize::MAX,
    ensures
        copy_frame(v, clone_hidden_children_spec(v, sel, ch0, idx, new_idx, i).0, new_idx),
        hides_additions(v, clone_hidden_children_spec(v, sel, ch0, idx, new_idx, i).0),
    decreases rank_of(ch0)(idx), 0nat, children_in(ch0, idx).len() + 1 - i,
{
    if i < children_in(ch0, idx).len() {
        let c = children_in(ch0, idx)[i];
        lemma_rank_edge(ch0, idx, i);
        let r = clone_hidden_spec(v, sel, ch0, c);
        let v2 = with_link(r.0, r.2, new_idx);
        lemma_clone_hidden_children_len(v2, r.1, ch0, idx, new_idx, i + 1);
        lemma_clone_hidden_frame(v, sel, ch0, c);
        lemma_clone_hidden_children_frame(v2, r.1, ch0, idx, new_idx, i + 1);
        let fin = clone_hidden_children_spec(v2, r.1, ch0, idx, new_idx, i + 1).0;
        assert(copy_frame(r.0, v2, new_idx));
        lemma_copy_frame_trans(v, r.0, v2, v.stmts.len() as usize, new_idx, new_idx);
        lemma_copy_frame_trans(v, v2, fin, new_idx, new_idx, new_idx);
    }
}

/// Copying a subtree into hidden slots leaves every existing slot, and the
/// children of every existing node, as they were; every slot it adds holds
/// a statement, is hidden, and a copied style rule there has a selector of
/// its own, keyed by its slot. Nothing else is hidden or shown.
pub proof fn lemma_clone_hidden_keeps_existing(
    v: CssTreeView,
    sel: Map<usize, ExtendedSelector>,
    idx: usize,
)
    requires
        v.wf(),
        clone_hidden_spec(v, sel, v.children, idx).0.stmts.len() < usize::MAX,
    ensures
        ({
            let r = clone_hidden_spec(v, sel, v.children, idx).0;
            &&& r.stmts.len() >= v.stmts.len()
            &&& forall|i: int| 0 <= i < v.stmts.len() ==> #[trigger] r.stmts[i] == v.stmts[i]
            &&& forall|p: usize| p < v.stmts.len() ==> #[trigger] r.children_of(p) == v.children_of(p)
            &&& forall|k: int| v.stmts.len() <= k < r.stmts.len() ==> keyed_copy(#[trigger] r.stmts[k], k)
            &&& hides_additions(v, r)
        }),
{
    lemma_clone_hidden_frame(v, sel, v.children, idx);
}

/// The statements of the occupied slots, in slot order.
pub open spec fn occupied(s: Seq<Option<CssStmtView>>) -> Seq<CssStmtView>
    decreases s.len(),
{
    if s.len() == 0 {
        Seq::empty()
    } else {
        let r = occupied(s.drop_last());
        match s.last() {
            Some(x) => r.push(x),
            None => r,
        }
    }
}

proof fn lemma_top_apply_unlinked(
    s: Seq<Option<CssStmtView>>,
    ch: Map<usize, Seq<usize>>,
    hc: Set<usize>,
    idx: int,
    end: int,
)
    requires
        ch.dom() == Set::<usize>::empty(),
    ensures
        top_apply(s, ch, hc, idx, end) == s,
    decreases end - idx,
{
    if idx < end {
        lemma_top_apply_unlinked(s, ch, hc, idx + 1, end);
    }
}

proof fn lemma_collect_all(s: Seq<Option<CssStmtView>>, hc: Set<usize>, n: int)
    requires
        0 <= n <= s.len(),
        hc == Set::<usize>::empty(),
    ensures
        collect_visible(s, hc, n) == occupied(s.take(n)),
    decreases n,
{
    if n > 0 {
        lemma_collect_all(s, hc, n - 1);
        assert(s.take(n).drop_last() =~= s.take(n - 1));
    } else {
        assert(s.take(0) =~= Seq::<Option<CssStmtView>>::empty());
    }
}

/// With nothing hidden and no links, finishing a tree gives every
/// statement, in slot order.
pub proof fn lemma_finish_unlinked(v: CssTreeView)
    requires
        v.hidden == Set::<usize>::empty(),
        v.children == Map::<usize, Seq<usize>>::empty(),
    ensures
        finished(v) == occupied(v.stmts),
{
    let hc = hidden_closure(v);
    assert(hc =~= Set::<usize>::empty());
    lemma_top_apply_unlinked(v.stmts, v.children, hc, 1, v.stmts.len() - 1);
    lemma_collect_all(v.stmts, hc, v.stmts.len() as int);
    assert(v.stmts.take(v.stmts.len() as int) =~= v.stmts);
}

proof fn lemma_collect_none(s: Seq<Option<CssStmtView>>, hc: Set<usize>, n: int)
    requires
        forall|i: usize| i < n ==> #[trigger] hc.contains(i),
    ensures
        collect_visible(s, hc, n) == Seq::<CssStmtView>::empty(),
    decreases n,
{
    if n > 0 {
        lemma_collect_none(s, hc, n - 1);
    }
}

/// When every slot is hidden, finishing the tree gives nothing.
pub proof fn lemma_finish_all_hidden(v: CssTreeView)
    requires
        forall|i: usize| i < v.stmts.len() ==> #[trigger] v.hidden.contains(i),
    ensures
        finished(v) == Seq::<CssStmtView>::empty(),
{
    let hc = hidden_closure(v);
    assert forall|i: usize| i < v.stmts.len() implies #[trigger] hc.contains(i) by {
        lemma_reaches_self(v.children, i);
    }
    lemma_collect_none(
        top_apply(v.stmts, v.children, hc, 1, v.stmts.len() - 1),
        hc,
        v.stmts.len() as int,
    );
}

proof fn lemma_apply_list_frame(
    s: Seq<Option<CssStmtView>>,
    ch: Map<usize, Seq<usize>>,
    hc: Set<usize>,
    parent: usize,
    i: int,
    x: usize,
)
    requires
        acyclic(ch),
        links_below(ch, s.len()),
        ch.dom().contains(parent),
        0 <= i,
        x < s.len(),
        hc.contains(x),
        !hc.contains(parent),
    ensures
        apply_list(s, ch, hc, parent, i).len() == s.len(),
        apply_list(s.update(x as int, None), ch, hc, parent, i) == apply_list(
            s,
            ch,
            hc,
            parent,
            i,
        ).update(x as int, None),
    decreases rank_of(ch)(parent), 0nat, ch[parent].len() + 1 - i,
{
    if i < ch[parent].len() {
        let c = ch[parent][i];
        lemma_rank_edge(ch, parent, i);
        let s_x = s.update(x as int, None);
        if hc.contains(c) {
            lemma_apply_list_frame(s, ch, hc, parent, i + 1, x);
        } else {
            assert(c != x);
            assert(parent != x);
            let s1 = if ch.dom().contains(c) {
                apply_spec(s, ch, hc, c)
            } else {
                s
            };
            let s1_x = if ch.dom().contains(c) {
                apply_spec(s_x, ch, hc, c)
            } else {
                s_x
            };
            if ch.dom().contains(c) {
                lemma_apply_spec_frame(s, ch, hc, c, x);
            }
            assert(s1_x == s1.update(x as int, None));
            let s2 = match s1[c as int] {
                Some(st) => s1.update(c as int, None).update(
                    parent as int,
                    Some(push_child(s1[parent as int].unwrap(), st)),
                ),
                None => s1,
            };
            let s2_x = match s1_x[c as int] {
                Some(st) => s1_x.update(c as int, None).update(
                    parent as int,
                    Some(push_child(s1_x[parent as int].unwrap(), st)),
                ),
                None => s1_x,
            };
            assert(c < s.len() && parent < s.len());
            assert(s1.len() == s.len());
            assert(s2.len() == s.len());
            assert(s2_x =~= s2.update(x as int, None));
            lemma_apply_list_frame(s2, ch, hc, parent, i + 1, x);
        }
    }
}

proof fn lemma_apply_spec_frame(
    s: Seq<Option<CssStmtView>>,
    ch: Map<usize, Seq<usize>>,
    hc: Set<usize>,
    parent: usize,
    x: usize,
)
    requires
        acyclic(ch),
        links_below(ch, s.len()),
        ch.dom().contains(parent),
        x < s.len(),
        hc.contains(x),
        !hc.contains(parent),
    ensures
        apply_spec(s, ch, hc, parent).len() == s.len(),
        apply_spec(s.update(x as int, None), ch, hc, parent) == apply_spec(
            s,
            ch,
            hc,
            parent,
        ).update(x as int, None),
    decreases rank_of(ch)(parent), 1nat, 0nat,
{
    lemma_apply_list_frame(s, ch, hc, parent, 0, x);
}

proof fn lemma_top_apply_frame(
    s: Seq<Option<CssStmtView>>,
    ch: Map<usize, Seq<usize>>,
    hc: Set<usize>,
    idx: int,
    end: int,
    x: usize,
)
    requires
        acyclic(ch),
        links_below(ch, s.len()),
        s.len() <= usize::MAX,
        x < s.len(),
        end <= s.len(),
        hc.contains(x),
        1 <= idx,
    ensures
        top_apply(s, ch, hc, idx, end).len() == s.len(),
        top_apply(s.update(x as int, None), ch, hc, idx, end) == top_apply(s, ch, hc, idx, end).update(
            x as int,
            None,
        ),
    decreases end - idx,
{
    if idx < end {
        let s_x = s.update(x as int, None);
        let applies = !hc.contains(idx as usize) && s[idx] is Some && ch.dom().contains(idx as usize);
        if idx != x {
            assert(s_x[idx] == s[idx]);
        }
        if applies {
            lemma_apply_spec_frame(s, ch, hc, idx as usize, x);
            lemma_top_apply_frame(apply_spec(s, ch, hc, idx as usize), ch, hc, idx + 1, end, x);
        } else {
            lemma_top_apply_frame(s, ch, hc, idx + 1, end, x);
        }
    }
}

proof fn lemma_collect_ignores(s: Seq<Option<CssStmtView>>, hc: Set<usize>, n: int, x: usize)
    requires
        hc.contains(x),
        x < s.len(),
        n <= s.len(),
    ensures
        collect_visible(s.update(x as int, None), hc, n) == collect_visible(s, hc, n),
    decreases n,
{
    if n > 0 {
        lemma_collect_ignores(s, hc, n - 1, x);
        if n - 1 != x {
            assert(s.update(x as int, None)[n - 1] == s[n - 1]);
        }
    }
}

/// A hidden node's statement, or that of a node below a hidden one, is
/// left out of the output of `finish`: the output is what it would be
/// with the node's slot empty.
pub proof fn lemma_hidden_statement_left_out(v: CssTreeView, x: usize)
    requires
        v.wf(),
        x < v.stmts.len(),
        hidden_closure(v).contains(x),
    ensures
        finished(v) == finished(
            CssTreeView { stmts: v.stmts.update(x as int, None), ..v },
        ),
{
    let hc = hidden_closure(v);
    let w = CssTreeView { stmts: v.stmts.update(x as int, None), ..v };
    assert(hidden_closure(w) == hc);
    let end = v.stmts.len() - 1;
    lemma_top_apply_frame(v.stmts, v.children, hc, 1, end, x);
    let t = top_apply(v.stmts, v.children, hc, 1, end);
    lemma_collect_ignores(t, hc, v.stmts.len() as int, x);
}

/// Adding a child under `p` gives `p` one more child and leaves the
/// number of children of every other node as it was.
pub proof fn lemma_child_count_after_add(v: CssTreeView, s: CssStmtView, p: usize, q: usize)
    ensures
        with_child(v, s, p).children_of(q).len() == v.children_of(q).len() + if q == p {
            1int
        } else {
            0int
        },
{
}

/// The children of the root from position `n` on, after one more
/// statement is added under the root, are those from before followed by
/// the new statement: so the root's children from a count taken earlier
/// are the statements added under it since, in order.
pub proof fn lemma_root_children_after_add(v: CssTreeView, s: CssStmtView, n: int)
    requires
        0 <= n <= v.children_of(CssTree::ROOT).len(),
    ensures
        tail_from(with_child(v, s, CssTree::ROOT).children_of(CssTree::ROOT), n) == tail_from(
            v.children_of(CssTree::ROOT),
            n,
        ).push(v.stmts.len() as usize),
{
    let old_list = v.children_of(CssTree::ROOT);
    let new_list = with_child(v, s, CssTree::ROOT).children_of(CssTree::ROOT);
    assert(new_list == old_list.push(v.stmts.len() as usize));
    assert(new_list.subrange(n, new_list.len() as int) =~= old_list.subrange(
        n,
        old_list.len() as int,
    ).push(v.stmts.len() as usize));
}

/// After marking a node hidden it is hidden, and what was hidden stays
/// hidden; adding, linking and moving nodes leave the hidden set as it is
/// (as their contracts state), and a hidden copy adds exactly its new
/// slots (see [`lemma_clone_hidden_keeps_existing`]).
pub proof fn lemma_marked_is_hidden(hidden: Set<usize>, i: usize, j: usize)
    ensures
        hidden.insert(i).contains(i),
        hidden.contains(j) ==> hidden.insert(i).contains(j),
        hidden.insert(i).contains(j) ==> j == i || hidden.contains(j),
{
}


/// A style rule whose selector list is invisible (every selector holds a
/// placeholder) never produces output, whatever its children.
pub proof fn lemma_invisible_rule_not_visible(v: CssTreeView, idx: usize, s: CssStmtView)
    requires
        acyclic(v.children),
        s is RuleSet,
        list_invisible(*s->RuleSet_selector.list),
    ensures
        !stmt_visible(v, idx, s),
{
}


proof fn lemma_visible_from_witness(v: CssTreeView, idx: usize, j: int)
    requires
        acyclic(v.children),
        v.children.dom().contains(idx),
        0 <= j,
        visible_from(v, idx, j),
    ensures
        exists|k: int| j <= k < v.children[idx].len() && #[trigger] visible_at(v, idx, k),
    decreases v.children[idx].len() - j,
{
    if j < v.children[idx].len() && !visible_at(v, idx, j) {
        lemma_visible_from_witness(v, idx, j + 1);
    }
}

/// A media, supports or style rule that produces output has a child that
/// is a statement producing output itself: such a rule with no visible
/// child is left out.
pub proof fn lemma_visible_rule_has_visible_child(v: CssTreeView, idx: usize, s: CssStmtView)
    requires
        acyclic(v.children),
        s is Media || s is Supports || s is RuleSet,
        stmt_visible(v, idx, s),
    ensures
        v.children.dom().contains(idx),
        exists|k: int|
            0 <= k < v.children[idx].len() && v.stmts[#[trigger] v.children[idx][k] as int] is Some
                && stmt_visible(
                v,
                v.children[idx][k],
                v.stmts[v.children[idx][k] as int].unwrap(),
            ),
{
    lemma_visible_from_witness(v, idx, 0);
    let k = choose|k: int| 0 <= k < v.children[idx].len() && #[trigger] visible_at(v, idx, k);
    assert(v.stmts[v.children[idx][k] as int] is Some);
}

} // verus!
