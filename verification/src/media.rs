use vstd::prelude::*;

verus! {

/// A media query of the output: `<modifier> <type> and <conditions>`.
#[derive(Debug)]
pub struct CssMediaQuery {
    pub modifier: Option<String>,
    pub media_type: Option<String>,
    pub conditions: Vec<String>,
    pub conjunction: bool,
}

/// The mathematical value of a [`CssMediaQuery`].
pub struct CssMediaQueryView {
    pub modifier: Option<Seq<char>>,
    pub media_type: Option<Seq<char>>,
    pub conditions: Seq<Seq<char>>,
    pub conjunction: bool,
}

/// The text of an optional string.
pub open spec fn opt_text(o: Option<String>) -> Option<Seq<char>> {
    match o {
        Some(s) => Some(s@),
        None => None,
    }
}

impl View for CssMediaQuery {
    type V = CssMediaQueryView;

    open spec fn view(&self) -> CssMediaQueryView {
        CssMediaQueryView {
            modifier: opt_text(self.modifier),
            media_type: opt_text(self.media_type),
            conditions: self.conditions@.map_values(|c: String| c@),
            conjunction: self.conjunction,
        }
    }
}

/// The views of a list of media queries.
pub open spec fn queries_view(qs: Seq<CssMediaQuery>) -> Seq<CssMediaQueryView> {
    qs.map_values(|q: CssMediaQuery| q@)
}

fn opt_text_eq(a: &Option<String>, b: &Option<String>) -> (r: bool)
    ensures
        r == (opt_text(*a) == opt_text(*b)),
{
    match a {
        Some(x) => match b {
            Some(y) => *x == *y,
            None => false,
        },
        None => b.is_none(),
    }
}

fn texts_eq(a: &Vec<String>, b: &Vec<String>) -> (r: bool)
    ensures
        r == (a@.map_values(|c: String| c@) == b@.map_values(|c: String| c@)),
{
    let ghost va = a@.map_values(|c: String| c@);
    let ghost vb = b@.map_values(|c: String| c@);
    if a.len() != b.len() {
        assert(va.len() != vb.len());
        return false;
    }
    let mut i: usize = 0;
    while i < a.len()
        invariant
            a.len() == b.len(),
            i <= a.len(),
            va == a@.map_values(|c: String| c@),
            vb == b@.map_values(|c: String| c@),
            forall|k: int| 0 <= k < i ==> #[trigger] va[k] == vb[k],
        decreases a.len() - i,
    {
        if !(a[i] == b[i]) {
            assert(va[i as int] != vb[i as int]);
            return false;
        }
        i = i + 1;
    }
    assert(va =~= vb);
    true
}

impl CssMediaQuery {
    /// Whether two queries are the same.
    pub fn same_as(&self, other: &CssMediaQuery) -> (r: bool)
        ensures
            r == (self@ == other@),
    {
        opt_text_eq(&self.modifier, &other.modifier) && opt_text_eq(
            &self.media_type,
            &other.media_type,
        ) && texts_eq(&self.conditions, &other.conditions) && self.conjunction
            == other.conjunction
    }
}

/// Whether two lists of media queries are the same, query by query.
pub fn same_queries(a: &Vec<CssMediaQuery>, b: &Vec<CssMediaQuery>) -> (r: bool)
    ensures
        r == (queries_view(a@) == queries_view(b@)),
{
    let ghost va = queries_view(a@);
    let ghost vb = queries_view(b@);
    if a.len() != b.len() {
        assert(va.len() != vb.len());
        return false;
    }
    let mut i: usize = 0;
    while i < a.len()
        invariant
            a.len() == b.len(),
            i <= a.len(),
            va == queries_view(a@),
            vb == queries_view(b@),
            forall|k: int| 0 <= k < i ==> #[trigger] va[k] == vb[k],
        decreases a.len() - i,
    {
        if !a[i].same_as(&b[i]) {
            assert(va[i as int] != vb[i as int]);
            return false;
        }
        i = i + 1;
    }
    assert(va =~= vb);
    true
}

fn clone_opt_text(o: &Option<String>) -> (r: Option<String>)
    ensures
        opt_text(r) == opt_text(*o),
{
    match o {
        Some(s) => Some(s.clone()),
        None => None,
    }
}

impl CssMediaQuery {
    /// A copy of this query.
    pub fn copy(&self) -> (r: CssMediaQuery)
        ensures
            r@ == self@,
    {
        let mut conditions: Vec<String> = Vec::new();
        let mut i: usize = 0;
        while i < self.conditions.len()
            invariant
                i <= self.conditions.len(),
                conditions@.len() == i,
                forall|k: int| 0 <= k < i ==> #[trigger] conditions@[k]@ == self.conditions@[k]@,
            decreases self.conditions.len() - i,
        {
            conditions.push(self.conditions[i].clone());
            i = i + 1;
        }
        assert(conditions@.map_values(|c: String| c@) =~= self.conditions@.map_values(
            |c: String| c@,
        ));
        CssMediaQuery {
            modifier: clone_opt_text(&self.modifier),
            media_type: clone_opt_text(&self.media_type),
            conditions,
            conjunction: self.conjunction,
        }
    }
}

/// A copy of a list of media queries.
pub fn copy_queries(qs: &Vec<CssMediaQuery>) -> (r: Vec<CssMediaQuery>)
    ensures
        queries_view(r@) == queries_view(qs@),
{
    let mut out: Vec<CssMediaQuery> = Vec::new();
    let mut i: usize = 0;
    while i < qs.len()
        invariant
            i <= qs.len(),
            out@.len() == i,
            forall|k: int| 0 <= k < i ==> #[trigger] out@[k]@ == qs@[k]@,
        decreases qs.len() - i,
    {
        out.push(qs[i].copy());
        i = i + 1;
    }
    assert(queries_view(out@) =~= queries_view(qs@));
    out
}

} // verus!
