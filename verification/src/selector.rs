use vstd::prelude::*;

verus! {

/// A combinator between two compound selectors.
#[derive(Clone, Copy, Debug, PartialEq, Eq, Structural, Hash)]
pub enum Combinator {
    /// `+`
    NextSibling,
    /// `>`
    Child,
    /// `~`
    FollowingSibling,
}

/// A simple selector.
#[derive(Debug)]
pub enum SimpleSelector {
    /// `*`
    Universal,
    /// An element name.
    Type(String),
    /// `.name`
    Class(String),
    /// `#name`
    Id(String),
    /// `%name`
    Placeholder(String),
    /// `[name]`
    Attribute(String),
    /// `&`, with an optional suffix (`&-suffix`).
    Parent(Option<String>),
    /// `:name` or `::name`, optionally with a selector argument.
    Pseudo(Pseudo),
}

/// A pseudo-class or pseudo-element.
#[derive(Debug)]
pub struct Pseudo {
    pub name: String,
    pub is_class: bool,
    pub selector: Option<Box<SelectorList>>,
}

/// A compound selector: simple selectors with no combinator between them.
///
/// Its specificity bounds are held as plain values.
#[derive(Debug)]
pub struct CompoundSelector {
    pub components: Vec<SimpleSelector>,
    pub min_specificity: i32,
    pub max_specificity: i32,
}

/// A comma-separated list of complex selectors.
#[derive(Debug)]
pub struct SelectorList {
    pub components: Vec<ComplexSelector>,
}

/// Lower and upper bound of a selector's specificity.
#[derive(Clone, Copy, Debug, PartialEq, Eq, Structural, Hash)]
pub struct Specificity {
    pub min: i32,
    pub max: i32,
}

impl Specificity {
    pub fn new(min: i32, max: i32) -> (s: Self)
        ensures
            s.min == min,
            s.max == max,
    {
        Specificity { min, max }
    }
}

/// One component of a complex selector.
#[derive(Debug)]
pub enum ComplexSelectorComponent {
    Combinator(Combinator),
    Compound(Box<CompoundSelector>),
}

/// A complex selector: compound selectors separated by combinators.
#[derive(Debug)]
pub struct ComplexSelector {
    /// The components of this selector.
    pub components: Vec<ComplexSelectorComponent>,
    /// Whether a line break should be emitted before this selector.
    pub line_break: bool,
    cached_hash: u64,
    cached_specificity: Specificity,
    is_transient: bool,
}

// ---------------------------------------------------------------------------
// Specifications

/// Sum of the minimum specificities of the compounds in `cs`.
pub open spec fn min_sum(cs: Seq<ComplexSelectorComponent>) -> int
    decreases cs.len(),
{
    if cs.len() == 0 {
        0
    } else {
        min_sum(cs.drop_last()) + match cs.last() {
            ComplexSelectorComponent::Compound(c) => c.min_specificity as int,
            ComplexSelectorComponent::Combinator(_) => 0,
        }
    }
}

/// Sum of the maximum specificities of the compounds in `cs`.
pub open spec fn max_sum(cs: Seq<ComplexSelectorComponent>) -> int
    decreases cs.len(),
{
    if cs.len() == 0 {
        0
    } else {
        max_sum(cs.drop_last()) + match cs.last() {
            ComplexSelectorComponent::Compound(c) => c.max_specificity as int,
            ComplexSelectorComponent::Combinator(_) => 0,
        }
    }
}

pub open spec fn in_i32(x: int) -> bool {
    i32::MIN <= x <= i32::MAX
}

/// Every partial specificity sum over `cs` fits in an `i32`.
pub open spec fn specificity_fits(cs: Seq<ComplexSelectorComponent>) -> bool {
    forall|k: int| 0 <= k <= cs.len() ==> in_i32(#[trigger] min_sum(cs.take(k))) && in_i32(
        max_sum(cs.take(k)),
    )
}

/// A selector that should be left out of the output: a trailing
/// combinator, a leading one inside a pseudo selector, or two adjacent
/// combinators.
pub open spec fn bogus(cs: Seq<ComplexSelectorComponent>, in_pseudo: bool) -> bool {
    ||| cs.len() > 0 && cs.last() is Combinator
    ||| in_pseudo && cs.len() > 0 && cs[0] is Combinator
    ||| has_adjacent_combinators_spec(cs)
}

/// Two adjacent combinator components occur somewhere in `cs`.
pub open spec fn has_adjacent_combinators_spec(cs: Seq<ComplexSelectorComponent>) -> bool {
    exists|i: int| 0 <= i && i + 1 < cs.len() && #[trigger] combinators_at(cs, i)
}

/// Positions `i` and `i + 1` of `cs` both hold combinators.
pub open spec fn combinators_at(cs: Seq<ComplexSelectorComponent>, i: int) -> bool {
    cs[i] is Combinator && cs[i + 1] is Combinator
}

impl View for ComplexSelector {
    type V = Seq<ComplexSelectorComponent>;

    /// The components of the selector.
    closed spec fn view(&self) -> Seq<ComplexSelectorComponent> {
        self.components@
    }
}

impl ComplexSelector {
    pub closed spec fn line_break_spec(&self) -> bool {
        self.line_break
    }

    pub closed spec fn specificity_spec(&self) -> Specificity {
        self.cached_specificity
    }

    /// The selector was built by `new_transient`.
    pub closed spec fn transient(&self) -> bool {
        self.is_transient
    }

    /// The specificity cache agrees with the components.
    pub open spec fn wf(&self) -> bool {
        &&& self.specificity_spec().min == min_sum(self@)
        &&& self.specificity_spec().max == max_sum(self@)
    }
}

/// The name `not`.
pub open spec fn is_not_name(name: Seq<char>) -> bool {
    name == seq!['n', 'o', 't']
}

/// A simple selector produces no output: a placeholder, or a pseudo
/// selector (other than `:not`) whose selector argument is invisible.
pub open spec fn simple_invisible(s: SimpleSelector) -> bool
    decreases s,
{
    match s {
        SimpleSelector::Placeholder(_) => true,
        SimpleSelector::Pseudo(p) => match p.selector {
            Some(sel) => !is_not_name(p.name@) && list_invisible(*sel),
            None => false,
        },
        _ => false,
    }
}

/// Every complex selector of the list is invisible.
pub open spec fn list_invisible(l: SelectorList) -> bool
    decreases l,
{
    forall|i: int| 0 <= i < l.components@.len() ==> complex_invisible(#[trigger] l.components@[i])
}

/// Some component of the complex selector is invisible.
pub open spec fn complex_invisible(c: ComplexSelector) -> bool
    decreases c,
{
    exists|i: int|
        0 <= i < c@.len() && component_invisible(#[trigger] c@[i])
}

/// A compound component with an invisible simple selector.
pub open spec fn component_invisible(c: ComplexSelectorComponent) -> bool
    decreases c,
{
    match c {
        ComplexSelectorComponent::Combinator(_) => false,
        ComplexSelectorComponent::Compound(comp) => compound_invisible(*comp),
    }
}

/// Some simple selector of the compound is invisible.
pub open spec fn compound_invisible(c: CompoundSelector) -> bool
    decreases c,
{
    exists|i: int|
        0 <= i < c.components@.len() && simple_invisible(#[trigger] c.components@[i])
}

/// A simple selector is `&` (with a suffix, when `suffix` is set) or holds
/// one in a pseudo selector argument.
pub open spec fn simple_has_parent(s: SimpleSelector, suffix: bool) -> bool
    decreases s,
{
    match s {
        SimpleSelector::Parent(sfx) => !suffix || sfx is Some,
        SimpleSelector::Pseudo(p) => match p.selector {
            Some(sel) => list_has_parent(*sel, suffix),
            None => false,
        },
        _ => false,
    }
}

/// Some complex selector of the list holds `&`.
pub open spec fn list_has_parent(l: SelectorList, suffix: bool) -> bool
    decreases l,
{
    exists|i: int|
        0 <= i < l.components@.len() && complex_has_parent(#[trigger] l.components@[i], suffix)
}

/// Some compound of the complex selector holds `&`, directly or nested in
/// a pseudo selector argument.
pub open spec fn complex_has_parent(c: ComplexSelector, suffix: bool) -> bool
    decreases c,
{
    exists|i: int|
        0 <= i < c@.len() && component_has_parent(#[trigger] c@[i], suffix)
}

pub open spec fn component_has_parent(c: ComplexSelectorComponent, suffix: bool) -> bool
    decreases c,
{
    match c {
        ComplexSelectorComponent::Combinator(_) => false,
        ComplexSelectorComponent::Compound(comp) => compound_has_parent(*comp, suffix),
    }
}

pub open spec fn compound_has_parent(c: CompoundSelector, suffix: bool) -> bool
    decreases c,
{
    exists|j: int|
        0 <= j < c.components@.len() && simple_has_parent(#[trigger] c.components@[j], suffix)
}


/// Simple-selector matching used by the compound superselector relation:
/// the same kind of selector with the same name; a pseudo selector matches
/// only a pseudo selector of the same name and kind, both without a
/// selector argument.
pub open spec fn simple_matches(a: SimpleSelector, b: SimpleSelector) -> bool {
    match (a, b) {
        (SimpleSelector::Universal, SimpleSelector::Universal) => true,
        (SimpleSelector::Type(x), SimpleSelector::Type(y)) => x@ == y@,
        (SimpleSelector::Class(x), SimpleSelector::Class(y)) => x@ == y@,
        (SimpleSelector::Id(x), SimpleSelector::Id(y)) => x@ == y@,
        (SimpleSelector::Placeholder(x), SimpleSelector::Placeholder(y)) => x@ == y@,
        (SimpleSelector::Attribute(x), SimpleSelector::Attribute(y)) => x@ == y@,
        (SimpleSelector::Parent(x), SimpleSelector::Parent(y)) => match (x, y) {
            (None, None) => true,
            (Some(p), Some(q)) => p@ == q@,
            _ => false,
        },
        (SimpleSelector::Pseudo(p), SimpleSelector::Pseudo(q)) => p.name@ == q.name@ && p.is_class
            == q.is_class && p.selector is None && q.selector is None,
        _ => false,
    }
}

/// Some simple selector of `c2` matches `s`.
pub open spec fn matched_in(s: SimpleSelector, c2: CompoundSelector) -> bool {
    exists|j: int| 0 <= j < c2.components@.len() && simple_matches(s, #[trigger] c2.components@[j])
}

/// `c1` is a superselector of `c2`: every simple selector of `c1` is
/// matched by one of `c2`.
pub open spec fn compound_sup(c1: CompoundSelector, c2: CompoundSelector) -> bool {
    forall|i: int| 0 <= i < c1.components@.len() ==> matched_in(#[trigger] c1.components@[i], c2)
}

/// A combinator component is `~` or `+`.
pub open spec fn sibling_comb(c: ComplexSelectorComponent) -> bool {
    c is Combinator ==> (c->Combinator_0 == Combinator::FollowingSibling || c->Combinator_0
        == Combinator::NextSibling)
}

/// Positions `i` and `i + 1` of `cs` both hold compounds.
pub open spec fn compounds_at(cs: Seq<ComplexSelectorComponent>, i: int) -> bool {
    cs[i] is Compound && cs[i + 1] is Compound
}

/// Every compound of `inter` is followed by `~` or `+`: all combinators are
/// sibling combinators, no two compounds are adjacent, and it does not end
/// in a compound.
pub open spec fn sibling_chain(inter: Seq<ComplexSelectorComponent>) -> bool {
    &&& forall|i: int| 0 <= i < inter.len() ==> sibling_comb(#[trigger] inter[i])
    &&& forall|i: int| 0 <= i && i + 1 < inter.len() ==> !#[trigger] compounds_at(inter, i)
    &&& !(inter.last() is Compound)
}

/// The components between two matched compounds are compatible with the
/// combinator that preceded them: anything after a descendant combinator;
/// after `~`, only compounds each followed by `~` or `+`; nothing after `>`
/// or `+`.
pub open spec fn compatible_spec(
    previous: Option<Combinator>,
    inter: Seq<ComplexSelectorComponent>,
) -> bool {
    inter.len() == 0 || match previous {
        None => true,
        Some(Combinator::FollowingSibling) => sibling_chain(inter),
        Some(_) => false,
    }
}

/// The first position `a` (from `a` on, below `c2.len()`) such that the
/// compound at `a - 1` is matched by `c1`; `c2.len()` if there is none.
pub open spec fn find_after(
    c1: CompoundSelector,
    c2: Seq<ComplexSelectorComponent>,
    a: int,
) -> int
    decreases c2.len() - a,
{
    if a >= c2.len() || a < 1 {
        c2.len() as int
    } else if c2[a - 1] is Compound && compound_sup(c1, *c2[a - 1]->Compound_0) {
        a
    } else {
        find_after(c1, c2, a + 1)
    }
}

/// The superselector walk from positions `i1` in `c1` and `i2` in `c2`,
/// with `prev` the combinator that followed the last matched compound.
pub open spec fn sup_walk(
    c1: Seq<ComplexSelectorComponent>,
    c2: Seq<ComplexSelectorComponent>,
    i1: int,
    i2: int,
    prev: Option<Combinator>,
) -> bool
    decreases c1.len() - i1,
{
    let r1 = c1.len() - i1;
    let r2 = c2.len() - i2;
    if i1 < 0 || i2 < 0 || r1 <= 0 || r2 <= 0 || r1 > r2 {
        false
    } else if c1[i1] is Combinator || c2[i2] is Combinator {
        false
    } else if r1 == 1 {
        compatible_spec(prev, c2.subrange(i2, c2.len() - 1)) && c2.last() is Compound
            && compound_sup(*c1[i1]->Compound_0, *c2.last()->Compound_0)
    } else {
        let a = find_after(*c1[i1]->Compound_0, c2, i2 + 1);
        if a >= c2.len() {
            false
        } else if !compatible_spec(prev, c2.subrange(i2, a - 1)) {
            false
        } else if c1[i1 + 1] is Combinator {
            let comb1 = c1[i1 + 1]->Combinator_0;
            if c2[a] is Compound {
                false
            } else {
                let comb2 = c2[a]->Combinator_0;
                if comb1 == Combinator::FollowingSibling {
                    if comb2 == Combinator::Child {
                        false
                    } else {
                        sup_walk(c1, c2, i1 + 2, a + 1, Some(comb1))
                    }
                } else if comb1 != comb2 {
                    false
                } else {
                    sup_walk(c1, c2, i1 + 2, a + 1, Some(comb1))
                }
            }
        } else if c2[a] is Combinator {
            if c2[a]->Combinator_0 != Combinator::Child {
                false
            } else {
                sup_walk(c1, c2, i1 + 1, a + 1, None)
            }
        } else {
            sup_walk(c1, c2, i1 + 1, a, None)
        }
    }
}

/// `c1` is a superselector of `c2`: neither ends in a combinator, `c2` has
/// no adjacent combinators, and the walk from the start succeeds.
pub open spec fn complex_sup(
    c1: Seq<ComplexSelectorComponent>,
    c2: Seq<ComplexSelectorComponent>,
) -> bool {
    &&& !(c1.len() > 0 && c1.last() is Combinator)
    &&& !(c2.len() > 0 && c2.last() is Combinator)
    &&& !has_adjacent_combinators_spec(c2)
    &&& sup_walk(c1, c2, 0, 0, None)
}

proof fn lemma_sum_take_full(cs: Seq<ComplexSelectorComponent>)
    ensures
        cs.take(cs.len() as int) == cs,
{
    assert(cs.take(cs.len() as int) =~= cs);
}

// ---------------------------------------------------------------------------
// Components

impl ComplexSelectorComponent {
    pub fn is_compound(&self) -> (r: bool)
        ensures
            r == (self is Compound),
    {
        matches!(self, ComplexSelectorComponent::Compound(..))
    }

    pub fn is_combinator(&self) -> (r: bool)
        ensures
            r == (self is Combinator),
    {
        matches!(self, ComplexSelectorComponent::Combinator(..))
    }

    pub fn as_compound(&self) -> (c: &CompoundSelector)
        requires
            self is Compound,
        ensures
            *c == *self->Compound_0,
    {
        match self {
            ComplexSelectorComponent::Compound(c) => c,
            ComplexSelectorComponent::Combinator(..) => vstd::pervasive::unreached(),
        }
    }
}

impl ComplexSelector {
    fn compute_specificity(components: &Vec<ComplexSelectorComponent>) -> (s: Specificity)
        requires
            specificity_fits(components@),
        ensures
            s.min == min_sum(components@),
            s.max == max_sum(components@),
    {
        let mut min: i32 = 0;
        let mut max: i32 = 0;
        let mut i: usize = 0;
        while i < components.len()
            invariant
                i <= components.len(),
                specificity_fits(components@),
                min == min_sum(components@.take(i as int)),
                max == max_sum(components@.take(i as int)),
            decreases components.len() - i,
        {
            let ghost k = (i + 1) as int;
            assert(components@.take(k).drop_last() =~= components@.take(i as int));
            assert(in_i32(min_sum(components@.take(k))));
            assert(in_i32(max_sum(components@.take(k))));
            match &components[i] {
                ComplexSelectorComponent::Compound(compound) => {
                    min = min + compound.min_specificity;
                    max = max + compound.max_specificity;
                },
                ComplexSelectorComponent::Combinator(_) => {},
            }
            i = i + 1;
        }
        proof {
            lemma_sum_take_full(components@);
        }
        Specificity::new(min, max)
    }

    /// Like `new`, but skips computing the hash: for selectors that are only
    /// compared and then dropped.
    pub fn new_transient(components: Vec<ComplexSelectorComponent>, line_break: bool) -> (s: Self)
        requires
            specificity_fits(components@),
        ensures
            s@ == components@,
            s.line_break_spec() == line_break,
            s.transient(),
            s.wf(),
    {
        let cached_specificity = Self::compute_specificity(&components);
        ComplexSelector {
            components,
            line_break,
            cached_hash: 0,
            cached_specificity,
            is_transient: true,
        }
    }

    pub fn specificity(&self) -> (s: Specificity)
        ensures
            s == self.specificity_spec(),
            self.wf() ==> s.min == min_sum(self@) && s.max == max_sum(self@),
    {
        self.cached_specificity
    }

    pub fn max_specificity(&self) -> (m: i32)
        ensures
            m == self.specificity_spec().max,
            self.wf() ==> m == max_sum(self@),
    {
        self.specificity().max
    }

    pub fn min_specificity(&self) -> (m: i32)
        ensures
            m == self.specificity_spec().min,
            self.wf() ==> m == min_sum(self@),
    {
        self.specificity().min
    }

    fn has_adjacent_combinators(&self) -> (r: bool)
        ensures
            r == has_adjacent_combinators_spec(self@),
    {
        let mut prev_was_combinator = false;
        let mut i: usize = 0;
        while i < self.components.len()
            invariant
                i <= self.components.len(),
                prev_was_combinator == (i > 0 && self.components@[i - 1] is Combinator),
                forall|k: int| 0 <= k && k + 1 < i ==> !#[trigger] combinators_at(self.components@, k),
            decreases self.components.len() - i,
        {
            let is_combinator = self.components[i].is_combinator();
            if is_combinator && prev_was_combinator {
                assert(combinators_at(self.components@, i - 1));
                return true;
            }
            prev_was_combinator = is_combinator;
            i = i + 1;
        }
        false
    }

    /// Whether this selector has exactly one leading combinator (e.g. `+ a`):
    /// its first component is a combinator and its second is not. Doubled
    /// leading combinators (`+ + a`) are what [`Self::is_useless`] reports.
    pub fn has_leading_combinator(&self) -> (r: bool)
        ensures
            r == (self@.len() > 0 && self@[0] is Combinator && !(self@.len() > 1
                && self@[1] is Combinator)),
    {
        self.components.len() > 0 && self.components[0].is_combinator() && !(
        self.components.len() > 1 && self.components[1].is_combinator())
    }

    /// Whether this selector has a run of two or more adjacent combinators.
    pub fn is_useless(&self) -> (r: bool)
        ensures
            r == has_adjacent_combinators_spec(self@),
    {
        self.has_adjacent_combinators()
    }

    /// Whether this selector is bogus: a trailing combinator, a leading one
    /// inside a pseudo selector, or adjacent combinators.
    pub fn is_bogus(&self, in_pseudo: bool) -> (r: bool)
        ensures
            r == bogus(self@, in_pseudo),
    {
        let n = self.components.len();
        if n > 0 && self.components[n - 1].is_combinator() {
            return true;
        }
        if in_pseudo {
            if n > 0 && self.components[0].is_combinator() {
                return true;
            }
        }
        self.has_adjacent_combinators()
    }
}


fn is_not(name: &String) -> (r: bool)
    ensures
        r == is_not_name(name@),
{
    let s = name.as_str();
    let n = s.unicode_len();
    if n != 3 {
        return false;
    }
    let r = s.get_char(0) == 'n' && s.get_char(1) == 'o' && s.get_char(2) == 't';
    proof {
        if r {
            assert(name@ =~= seq!['n', 'o', 't']);
        }
    }
    r
}

impl SimpleSelector {
    /// Whether this is `&`.
    pub fn is_parent(&self) -> (r: bool)
        ensures
            r == (self is Parent),
    {
        matches!(self, SimpleSelector::Parent(..))
    }

    pub fn is_invisible(&self) -> (r: bool)
        ensures
            r == simple_invisible(*self),
        decreases self,
    {
        match self {
            SimpleSelector::Placeholder(_) => true,
            SimpleSelector::Pseudo(p) => match &p.selector {
                Some(sel) => !is_not(&p.name) && sel.is_invisible(),
                None => false,
            },
            _ => false,
        }
    }

    fn has_parent(&self, suffix: bool) -> (r: bool)
        ensures
            r == simple_has_parent(*self, suffix),
        decreases self,
    {
        match self {
            SimpleSelector::Parent(sfx) => !suffix || sfx.is_some(),
            SimpleSelector::Pseudo(p) => match &p.selector {
                Some(sel) => sel.has_parent(suffix),
                None => false,
            },
            _ => false,
        }
    }
}

impl SelectorList {
    /// Whether every complex selector of the list is invisible.
    pub fn is_invisible(&self) -> (r: bool)
        ensures
            r == list_invisible(*self),
        decreases self,
    {
        let mut i: usize = 0;
        while i < self.components.len()
            invariant
                i <= self.components.len(),
                forall|j: int| 0 <= j < i ==> complex_invisible(#[trigger] self.components@[j]),
            decreases self.components.len() - i,
        {
            if !self.components[i].is_invisible() {
                return false;
            }
            i = i + 1;
        }
        true
    }

    fn has_parent(&self, suffix: bool) -> (r: bool)
        ensures
            r == list_has_parent(*self, suffix),
        decreases self,
    {
        let mut i: usize = 0;
        while i < self.components.len()
            invariant
                i <= self.components.len(),
                forall|j: int| 0 <= j < i ==> !complex_has_parent(#[trigger] self.components@[j], suffix),
            decreases self.components.len() - i,
        {
            if self.components[i].has_parent(suffix) {
                return true;
            }
            i = i + 1;
        }
        false
    }

    /// Whether some selector of the list contains `&`.
    pub fn contains_parent_selector(&self) -> (r: bool)
        ensures
            r == list_has_parent(*self, false),
    {
        self.has_parent(false)
    }

    /// Whether some selector of the list contains `&` with a suffix.
    pub fn contains_parent_selector_with_suffix(&self) -> (r: bool)
        ensures
            r == list_has_parent(*self, true),
    {
        self.has_parent(true)
    }
}

impl CompoundSelector {
    pub fn is_invisible(&self) -> (r: bool)
        ensures
            r == compound_invisible(*self),
        decreases self,
    {
        let mut i: usize = 0;
        while i < self.components.len()
            invariant
                i <= self.components.len(),
                forall|j: int| 0 <= j < i ==> !simple_invisible(#[trigger] self.components@[j]),
            decreases self.components.len() - i,
        {
            if self.components[i].is_invisible() {
                return true;
            }
            i = i + 1;
        }
        false
    }

    fn has_parent(&self, suffix: bool) -> (r: bool)
        ensures
            r == compound_has_parent(*self, suffix),
        decreases self,
    {
        let mut i: usize = 0;
        while i < self.components.len()
            invariant
                i <= self.components.len(),
                forall|j: int| 0 <= j < i ==> !simple_has_parent(#[trigger] self.components@[j], suffix),
            decreases self.components.len() - i,
        {
            if self.components[i].has_parent(suffix) {
                return true;
            }
            i = i + 1;
        }
        false
    }

    pub fn min_specificity(&self) -> (m: i32)
        ensures
            m == self.min_specificity,
    {
        self.min_specificity
    }

    pub fn max_specificity(&self) -> (m: i32)
        ensures
            m == self.max_specificity,
    {
        self.max_specificity
    }
}

impl ComplexSelectorComponent {
    pub fn is_invisible(&self) -> (r: bool)
        ensures
            r == component_invisible(*self),
        decreases self,
    {
        match self {
            ComplexSelectorComponent::Combinator(..) => false,
            ComplexSelectorComponent::Compound(c) => c.is_invisible(),
        }
    }

    fn has_parent(&self, suffix: bool) -> (r: bool)
        ensures
            r == component_has_parent(*self, suffix),
        decreases self,
    {
        match self {
            ComplexSelectorComponent::Combinator(..) => false,
            ComplexSelectorComponent::Compound(c) => c.has_parent(suffix),
        }
    }
}

impl ComplexSelector {
    /// Whether some component of this selector is invisible.
    pub fn is_invisible(&self) -> (r: bool)
        ensures
            r == complex_invisible(*self),
        decreases self,
    {
        let mut i: usize = 0;
        while i < self.components.len()
            invariant
                i <= self.components.len(),
                forall|j: int| 0 <= j < i ==> !component_invisible(#[trigger] self.components@[j]),
            decreases self.components.len() - i,
        {
            if self.components[i].is_invisible() {
                assert(component_invisible(self@[i as int]));
                return true;
            }
            i = i + 1;
        }
        assert(forall|j: int| 0 <= j < self@.len() ==> !component_invisible(#[trigger] self@[j]));
        false
    }

    fn has_parent(&self, suffix: bool) -> (r: bool)
        ensures
            r == complex_has_parent(*self, suffix),
        decreases self,
    {
        let mut i: usize = 0;
        while i < self.components.len()
            invariant
                i <= self.components.len(),
                forall|j: int| 0 <= j < i ==> !component_has_parent(#[trigger] self.components@[j], suffix),
            decreases self.components.len() - i,
        {
            if self.components[i].has_parent(suffix) {
                assert(component_has_parent(self@[i as int], suffix));
                return true;
            }
            i = i + 1;
        }
        assert(forall|j: int| 0 <= j < self@.len() ==> !component_has_parent(#[trigger] self@[j], suffix));
        false
    }

    /// Whether some compound of this selector contains `&`, directly or in a
    /// pseudo selector argument.
    pub fn contains_parent_selector(&self) -> (r: bool)
        ensures
            r == complex_has_parent(*self, false),
    {
        self.has_parent(false)
    }

    /// Whether some compound of this selector contains `&` with a suffix
    /// (such as `&-foo`), directly or in a pseudo selector argument.
    pub fn contains_parent_selector_with_suffix(&self) -> (r: bool)
        ensures
            r == complex_has_parent(*self, true),
    {
        self.has_parent(true)
    }
}


fn simple_matches_exec(a: &SimpleSelector, b: &SimpleSelector) -> (r: bool)
    ensures
        r == simple_matches(*a, *b),
{
    match a {
        SimpleSelector::Universal => matches!(b, SimpleSelector::Universal),
        SimpleSelector::Type(x) => match b {
            SimpleSelector::Type(y) => *x == *y,
            _ => false,
        },
        SimpleSelector::Class(x) => match b {
            SimpleSelector::Class(y) => *x == *y,
            _ => false,
        },
        SimpleSelector::Id(x) => match b {
            SimpleSelector::Id(y) => *x == *y,
            _ => false,
        },
        SimpleSelector::Placeholder(x) => match b {
            SimpleSelector::Placeholder(y) => *x == *y,
            _ => false,
        },
        SimpleSelector::Attribute(x) => match b {
            SimpleSelector::Attribute(y) => *x == *y,
            _ => false,
        },
        SimpleSelector::Parent(x) => match b {
            SimpleSelector::Parent(y) => match x {
                None => y.is_none(),
                Some(p) => match y {
                    Some(q) => *p == *q,
                    None => false,
                },
            },
            _ => false,
        },
        SimpleSelector::Pseudo(p) => match b {
            SimpleSelector::Pseudo(q) => p.name.eq(&q.name) && p.is_class == q.is_class
                && p.selector.is_none() && q.selector.is_none(),
            _ => false,
        },
    }
}

impl CompoundSelector {
    /// Whether `self` matches every element that `other` matches: every
    /// simple selector of `self` is matched by one of `other`.
    pub fn is_super_selector(&self, other: &CompoundSelector) -> (r: bool)
        ensures
            r == compound_sup(*self, *other),
    {
        let mut i: usize = 0;
        while i < self.components.len()
            invariant
                i <= self.components.len(),
                forall|k: int| 0 <= k < i ==> matched_in(#[trigger] self.components@[k], *other),
            decreases self.components.len() - i,
        {
            let mut j: usize = 0;
            let mut found = false;
            while j < other.components.len() && !found
                invariant
                    i < self.components.len(),
                    j <= other.components.len(),
                    !found ==> forall|m: int|
                        0 <= m < j ==> !simple_matches(
                            self.components@[i as int],
                            #[trigger] other.components@[m],
                        ),
                    found ==> matched_in(self.components@[i as int], *other),
                decreases (other.components.len() - j) as int + (if found {
                    0int
                } else {
                    1int
                }),
            {
                if simple_matches_exec(&self.components[i], &other.components[j]) {
                    found = true;
                } else {
                    j = j + 1;
                }
            }
            if !found {
                assert(!compound_sup(*self, *other)) by {
                    assert(!matched_in(self.components@[i as int], *other));
                }
                return false;
            }
            i = i + 1;
        }
        true
    }
}

fn is_sibling_chain(inter: &[ComplexSelectorComponent]) -> (r: bool)
    requires
        inter@.len() > 0,
    ensures
        r == sibling_chain(inter@),
{
    let mut prev_was_compound = false;
    let mut i: usize = 0;
    while i < inter.len()
        invariant
            i <= inter@.len(),
            inter@.len() > 0,
            prev_was_compound == (i > 0 && inter@[i - 1] is Compound),
            forall|k: int| 0 <= k < i ==> sibling_comb(#[trigger] inter@[k]),
            forall|k: int| 0 <= k && k + 1 < i ==> !#[trigger] compounds_at(inter@, k),
        decreases inter@.len() - i,
    {
        match &inter[i] {
            ComplexSelectorComponent::Compound(_) => {
                if prev_was_compound {
                    assert(compounds_at(inter@, i - 1));
                    return false;
                }
                prev_was_compound = true;
            },
            ComplexSelectorComponent::Combinator(c) => {
                if *c != Combinator::FollowingSibling && *c != Combinator::NextSibling {
                    assert(!sibling_comb(inter@[i as int]));
                    return false;
                }
                prev_was_compound = false;
            },
        }
        i = i + 1;
    }
    !prev_was_compound
}

/// Whether spaces around this component are left out of the output: only
/// for combinators in compressed output, which is never asked for here.
pub fn omit_spaces_around(component: &ComplexSelectorComponent) -> (r: bool)
    ensures
        !r,
{
    let is_compressed = false;
    is_compressed && component.is_combinator()
}

/// Checks whether `intermediates` (the components of the other selector
/// between two matched compounds) are compatible with the `previous`
/// combinator.
fn compatible_with_previous_combinator(
    previous: Option<Combinator>,
    intermediates: &[ComplexSelectorComponent],
) -> (r: bool)
    ensures
        r == compatible_spec(previous, intermediates@),
{
    if intermediates.len() == 0 {
        return true;
    }
    match previous {
        None => true,
        Some(Combinator::FollowingSibling) => is_sibling_chain(intermediates),
        Some(_) => false,
    }
}

impl ComplexSelector {
    /// Returns whether `self` is a superselector of `other`: whether `self`
    /// matches every element that `other` matches, as well as possibly
    /// additional elements.
    #[verifier::rlimit(40)]
    pub fn is_super_selector(&self, other: &Self) -> (r: bool)
        ensures
            r == complex_sup(self@, other@),
    {
        let n1 = self.components.len();
        let n2 = other.components.len();
        if n1 > 0 && self.components[n1 - 1].is_combinator() {
            return false;
        }
        if n2 > 0 && other.components[n2 - 1].is_combinator() {
            return false;
        }
        if other.has_adjacent_combinators() {
            return false;
        }
        let ghost c1 = self@;
        let ghost c2 = other@;
        let mut i1: usize = 0;
        let mut i2: usize = 0;
        let mut previous_combinator: Option<Combinator> = None;
        loop
            invariant
                c1 == self.components@,
                c2 == other.components@,
                n1 == c1.len(),
                n2 == c2.len(),
                i1 <= n1,
                i2 <= n2,
                !(n1 > 0 && c1.last() is Combinator),
                !(n2 > 0 && c2.last() is Combinator),
                !has_adjacent_combinators_spec(c2),
                sup_walk(c1, c2, i1 as int, i2 as int, previous_combinator) == sup_walk(
                    c1,
                    c2,
                    0,
                    0,
                    None,
                ),
            decreases n1 - i1,
        {
            let remaining1 = n1 - i1;
            let remaining2 = n2 - i2;
            if remaining1 == 0 || remaining2 == 0 || remaining1 > remaining2 {
                return false;
            }
            let compound1: &CompoundSelector = match &self.components[i1] {
                ComplexSelectorComponent::Compound(c) => c,
                ComplexSelectorComponent::Combinator(..) => return false,
            };
            assert(*compound1 == *c1[i1 as int]->Compound_0);
            if other.components[i2].is_combinator() {
                return false;
            }
            if remaining1 == 1 {
                let intermediates = vstd::slice::slice_subrange(
                    other.components.as_slice(),
                    i2,
                    n2 - 1,
                );
                assert(intermediates@ == c2.subrange(i2 as int, n2 - 1));
                if !compatible_with_previous_combinator(previous_combinator, intermediates) {
                    return false;
                }
                let last = other.components[n2 - 1].as_compound();
                return compound1.is_super_selector(last);
            }
            let mut after_super_selector = i2 + 1;
            let mut found = false;
            while after_super_selector < n2 && !found
                invariant
                    c2 == other.components@,
                    n2 == c2.len(),
                    i2 + 1 <= after_super_selector <= n2,
                    found ==> after_super_selector < n2 && find_after(
                        *compound1,
                        c2,
                        after_super_selector as int,
                    ) == after_super_selector,
                    find_after(*compound1, c2, (i2 + 1) as int) == find_after(
                        *compound1,
                        c2,
                        after_super_selector as int,
                    ),
                decreases n2 - after_super_selector + (if found {
                    0int
                } else {
                    1int
                }),
            {
                match &other.components[after_super_selector - 1] {
                    ComplexSelectorComponent::Compound(compound2) => {
                        if compound1.is_super_selector(compound2) {
                            found = true;
                        }
                    },
                    ComplexSelectorComponent::Combinator(..) => {},
                }
                if !found {
                    after_super_selector = after_super_selector + 1;
                }
            }
            let ghost a = after_super_selector as int;
            assert(find_after(*compound1, c2, (i2 + 1) as int) == a);
            if after_super_selector == n2 {
                return false;
            }
            let intermediates = vstd::slice::slice_subrange(
                other.components.as_slice(),
                i2,
                after_super_selector - 1,
            );
            assert(intermediates@ == c2.subrange(i2 as int, a - 1));
            if !compatible_with_previous_combinator(previous_combinator, intermediates) {
                return false;
            }
            match &self.components[i1 + 1] {
                ComplexSelectorComponent::Combinator(combinator1) => {
                    let combinator2 = match &other.components[after_super_selector] {
                        ComplexSelectorComponent::Combinator(c) => c,
                        ComplexSelectorComponent::Compound(..) => return false,
                    };
                    if *combinator1 == Combinator::FollowingSibling {
                        if *combinator2 == Combinator::Child {
                            return false;
                        }
                    } else if *combinator1 != *combinator2 {
                        return false;
                    }
                    previous_combinator = Some(*combinator1);
                    i1 = i1 + 2;
                    i2 = after_super_selector + 1;
                },
                ComplexSelectorComponent::Compound(..) => {
                    match &other.components[after_super_selector] {
                        ComplexSelectorComponent::Combinator(combinator2) => {
                            if *combinator2 != Combinator::Child {
                                return false;
                            }
                            previous_combinator = None;
                            i1 = i1 + 1;
                            i2 = after_super_selector + 1;
                        },
                        ComplexSelectorComponent::Compound(..) => {
                            previous_combinator = None;
                            i1 = i1 + 1;
                            i2 = after_super_selector;
                        },
                    }
                },
            }
        }
    }
}


// ---------------------------------------------------------------------------
// Laws

/// A simple selector that the superselector relation compares by itself:
/// anything but a pseudo selector with a selector argument.
pub open spec fn self_comparable(s: SimpleSelector) -> bool {
    !(s matches SimpleSelector::Pseudo(p) && p.selector is Some)
}

/// Every simple selector of every compound of `cs` is self-comparable.
pub open spec fn plain_compounds(cs: Seq<ComplexSelectorComponent>) -> bool {
    forall|i: int, j: int|
        0 <= i < cs.len() && cs[i] is Compound && 0 <= j < cs[i]->Compound_0.components@.len()
            ==> self_comparable(#[trigger] cs[i]->Compound_0.components@[j])
}

proof fn lemma_compound_sup_self(c: CompoundSelector)
    requires
        forall|j: int| 0 <= j < c.components@.len() ==> self_comparable(#[trigger] c.components@[j]),
    ensures
        compound_sup(c, c),
{
    assert forall|i: int| 0 <= i < c.components@.len() implies matched_in(
        #[trigger] c.components@[i],
        c,
    ) by {
        assert(simple_matches(c.components@[i], c.components@[i]));
    }
}

proof fn lemma_sup_walk_self(cs: Seq<ComplexSelectorComponent>, i: int, prev: Option<Combinator>)
    requires
        0 <= i < cs.len(),
        cs[i] is Compound,
        !(cs.last() is Combinator),
        !has_adjacent_combinators_spec(cs),
        plain_compounds(cs),
    ensures
        sup_walk(cs, cs, i, i, prev),
    decreases cs.len() - i,
{
    let c = *cs[i]->Compound_0;
    assert forall|j: int| 0 <= j < c.components@.len() implies self_comparable(
        #[trigger] c.components@[j],
    ) by {
        assert(self_comparable(cs[i]->Compound_0.components@[j]));
    }
    lemma_compound_sup_self(c);
    assert(cs.subrange(i, i) =~= Seq::<ComplexSelectorComponent>::empty());
    if i + 1 < cs.len() {
        assert(find_after(c, cs, i + 1) == i + 1);
        if cs[i + 1] is Combinator {
            assert(!combinators_at(cs, i + 1));
            assert(i + 2 < cs.len());
            lemma_sup_walk_self(cs, i + 2, Some(cs[i + 1]->Combinator_0));
        } else {
            lemma_sup_walk_self(cs, i + 1, None);
        }
    } else {
        assert(cs.subrange(i, cs.len() - 1) =~= Seq::<ComplexSelectorComponent>::empty());
    }
}

/// A selector is a superselector of itself, when it is not empty, has no
/// leading, trailing or adjacent combinators, and holds no pseudo selector
/// with a selector argument.
pub proof fn lemma_super_selector_reflexive(cs: Seq<ComplexSelectorComponent>)
    requires
        cs.len() > 0,
        !(cs[0] is Combinator),
        !(cs.last() is Combinator),
        !has_adjacent_combinators_spec(cs),
        plain_compounds(cs),
    ensures
        complex_sup(cs, cs),
{
    lemma_sup_walk_self(cs, 0, None);
}

/// Every compound's minimum specificity is at most its maximum.
pub open spec fn compounds_ordered(cs: Seq<ComplexSelectorComponent>) -> bool {
    forall|i: int|
        0 <= i < cs.len() && (#[trigger] cs[i]) is Compound ==> cs[i]->Compound_0.min_specificity
            <= cs[i]->Compound_0.max_specificity
}

/// The minimum specificity of a selector is at most its maximum, when that
/// holds of each of its compounds.
pub proof fn lemma_min_specificity_le_max(cs: Seq<ComplexSelectorComponent>)
    requires
        compounds_ordered(cs),
    ensures
        min_sum(cs) <= max_sum(cs),
    decreases cs.len(),
{
    if cs.len() > 0 {
        let init = cs.drop_last();
        assert forall|i: int| 0 <= i < init.len() && (#[trigger] init[i]) is Compound implies init[i]->Compound_0.min_specificity
            <= init[i]->Compound_0.max_specificity by {
            assert(init[i] == cs[i]);
        }
        lemma_min_specificity_le_max(init);
        assert(cs.last() == cs[cs.len() - 1]);
    }
}

/// A useless selector (one with adjacent combinators) is bogus, inside a
/// pseudo selector or not.
pub proof fn lemma_useless_is_bogus(cs: Seq<ComplexSelectorComponent>, in_pseudo: bool)
    requires
        has_adjacent_combinators_spec(cs),
    ensures
        bogus(cs, in_pseudo),
{
}

/// The compound superselector relation is transitive.
pub proof fn lemma_compound_sup_transitive(
    c1: CompoundSelector,
    c2: CompoundSelector,
    c3: CompoundSelector,
)
    requires
        compound_sup(c1, c2),
        compound_sup(c2, c3),
    ensures
        compound_sup(c1, c3),
{
    assert forall|i: int| 0 <= i < c1.components@.len() implies matched_in(
        #[trigger] c1.components@[i],
        c3,
    ) by {
        let a = c1.components@[i];
        assert(matched_in(a, c2));
        let j = choose|j: int| 0 <= j < c2.components@.len() && simple_matches(a, #[trigger] c2.components@[j]);
        let b = c2.components@[j];
        assert(matched_in(b, c3));
        let k = choose|k: int| 0 <= k < c3.components@.len() && simple_matches(b, #[trigger] c3.components@[k]);
        assert(simple_matches(a, c3.components@[k]));
    }
}


/// A complex selector is invisible as soon as any one of its compounds is:
/// a placeholder anywhere in it, not only in its last compound, keeps it
/// out of the output.
pub proof fn lemma_invisible_component_makes_selector_invisible(c: ComplexSelector, i: int)
    requires
        0 <= i < c@.len(),
        component_invisible(c@[i]),
    ensures
        complex_invisible(c),
{
}

/// A compound holding a placeholder is invisible.
pub proof fn lemma_placeholder_compound_invisible(c: CompoundSelector, j: int)
    requires
        0 <= j < c.components@.len(),
        c.components@[j] is Placeholder,
    ensures
        compound_invisible(c),
{
    assert(simple_invisible(c.components@[j]));
}


/// Every step of `cs` is a sibling step: its combinators are `~` or `+`
/// and no two compounds stand side by side (no descendant step).
pub open spec fn sibling_steps_only(cs: Seq<ComplexSelectorComponent>) -> bool {
    &&& forall|i: int| 0 <= i < cs.len() ==> sibling_comb(#[trigger] cs[i])
    &&& forall|i: int| 0 <= i && i + 1 < cs.len() ==> !#[trigger] compounds_at(cs, i)
}

/// Where the search for a matching compound stops: past the end, or just
/// after a compound of `c2`.
proof fn lemma_find_after(c1: CompoundSelector, c2: Seq<ComplexSelectorComponent>, a: int)
    ensures
        find_after(c1, c2, a) == c2.len() || (1 <= find_after(c1, c2, a) < c2.len() && c2[find_after(
            c1,
            c2,
            a,
        ) - 1] is Compound),
    decreases c2.len() - a,
{
    if a >= c2.len() || a < 1 {
    } else if c2[a - 1] is Compound && compound_sup(c1, *c2[a - 1]->Compound_0) {
    } else {
        lemma_find_after(c1, c2, a + 1);
    }
}

/// A walk that succeeds against sibling steps only meets no descendant
/// step in `c1` from `i1` on.
proof fn lemma_walk_no_descendant(
    c1: Seq<ComplexSelectorComponent>,
    c2: Seq<ComplexSelectorComponent>,
    i1: int,
    i2: int,
    prev: Option<Combinator>,
)
    requires
        sibling_steps_only(c2),
        sup_walk(c1, c2, i1, i2, prev),
    ensures
        forall|i: int| i1 <= i && i + 1 < c1.len() ==> !#[trigger] compounds_at(c1, i),
    decreases c1.len() - i1,
{
    let r1 = c1.len() - i1;
    if r1 == 1 {
    } else {
        let a = find_after(*c1[i1]->Compound_0, c2, i2 + 1);
        lemma_find_after(*c1[i1]->Compound_0, c2, i2 + 1);
        if c1[i1 + 1] is Combinator {
            let comb1 = c1[i1 + 1]->Combinator_0;
            lemma_walk_no_descendant(c1, c2, i1 + 2, a + 1, Some(comb1));
        } else if c2[a] is Combinator {
            assert(sibling_comb(c2[a]));
        } else {
            assert(compounds_at(c2, a - 1));
        }
    }
}

/// A sibling is never a descendant: a selector with a descendant step (two
/// compounds side by side, as in `a c`) is not a superselector of one whose
/// steps are all sibling steps (as `a + c` or `a ~ c`).
pub proof fn lemma_descendant_not_super_of_siblings(
    c1: Seq<ComplexSelectorComponent>,
    c2: Seq<ComplexSelectorComponent>,
    i: int,
)
    requires
        sibling_steps_only(c2),
        0 <= i && i + 1 < c1.len(),
        compounds_at(c1, i),
    ensures
        !complex_sup(c1, c2),
{
    if complex_sup(c1, c2) {
        lemma_walk_no_descendant(c1, c2, 0, 0, None);
    }
}


/// A compound with an invisible simple selector anywhere in it is
/// invisible.
pub proof fn lemma_invisible_simple_makes_compound_invisible(c: CompoundSelector, j: int)
    requires
        0 <= j < c.components@.len(),
        simple_invisible(c.components@[j]),
    ensures
        compound_invisible(c),
{
}

/// The combinators of `other` that answer a combinator of `self`: `~` is
/// answered by `~` or `+`, and `+` and `>` by themselves.
pub open spec fn answers(c1: Combinator, c2: Combinator) -> bool {
    if c1 == Combinator::FollowingSibling {
        c2 == Combinator::FollowingSibling || c2 == Combinator::NextSibling
    } else {
        c2 == c1
    }
}

/// Each combinator met by a successful walk from `i1` is answered by a
/// combinator of `c2`.
proof fn lemma_walk_answers(
    c1: Seq<ComplexSelectorComponent>,
    c2: Seq<ComplexSelectorComponent>,
    i1: int,
    i2: int,
    prev: Option<Combinator>,
)
    requires
        sup_walk(c1, c2, i1, i2, prev),
    ensures
        forall|j: int|
            i1 <= j < c1.len() && (#[trigger] c1[j]) is Combinator ==> exists|m: int|
                0 <= m < c2.len() && c2[m] is Combinator && answers(
                    c1[j]->Combinator_0,
                    (#[trigger] c2[m])->Combinator_0,
                ),
    decreases c1.len() - i1,
{
    let r1 = c1.len() - i1;
    if r1 > 1 {
        let a = find_after(*c1[i1]->Compound_0, c2, i2 + 1);
        lemma_find_after(*c1[i1]->Compound_0, c2, i2 + 1);
        if c1[i1 + 1] is Combinator {
            let comb1 = c1[i1 + 1]->Combinator_0;
            lemma_walk_answers(c1, c2, i1 + 2, a + 1, Some(comb1));
            assert(c2[a] is Combinator && answers(comb1, c2[a]->Combinator_0));
        } else if c2[a] is Combinator {
            lemma_walk_answers(c1, c2, i1 + 1, a + 1, None);
        } else {
            lemma_walk_answers(c1, c2, i1 + 1, a, None);
        }
    }
}

/// Every combinator of a superselector is answered in the selector it
/// covers: a `>` by a `>`, a `+` by a `+`, a `~` by a `~` or a `+`. So
/// `a > c` covers no `a c`, `a ~ c` no `a > c`, and `a + c` no `a ~ c`.
pub proof fn lemma_super_combinators_answered(
    c1: Seq<ComplexSelectorComponent>,
    c2: Seq<ComplexSelectorComponent>,
    j: int,
)
    requires
        complex_sup(c1, c2),
        0 <= j < c1.len(),
        c1[j] is Combinator,
    ensures
        exists|m: int|
            0 <= m < c2.len() && c2[m] is Combinator && answers(
                c1[j]->Combinator_0,
                (#[trigger] c2[m])->Combinator_0,
            ),
{
    lemma_walk_answers(c1, c2, 0, 0, None);
    assert(c1[j] == c1[j]);
}

} // verus!
