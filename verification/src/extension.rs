use codemap::Span;
use vstd::prelude::*;

use crate::media::{queries_view, same_queries, CssMediaQuery, CssMediaQueryView};
use crate::selector::{ComplexSelector, SimpleSelector};

verus! {

/// `codemap::Span`, a position in the source: carried through as it is;
/// nothing of its contents is read here.
#[verifier::external_type_specification]
#[verifier::external_body]
pub struct ExSpan(Span);

/// An `@extend` rule, or a selector of the document standing for itself.
#[derive(Debug)]
pub struct Extension {
    /// The selector in which the `@extend` appeared.
    pub extender: ComplexSelector,
    /// The selector being extended; `None` for one-off extensions.
    pub target: Option<SimpleSelector>,
    /// The minimum specificity of any selector generated from this extender.
    pub specificity: i32,
    /// Whether this extension is optional.
    pub is_optional: bool,
    /// Whether this stands for a selector of the document rather than an
    /// `@extend` rule.
    pub is_original: bool,
    /// The media queries that this extension is restricted to, or `None`
    /// when it applies in any context.
    pub media_context: Option<Vec<CssMediaQuery>>,
    /// Where the extender was written.
    pub span: Span,
    pub left: Option<Box<Extension>>,
    pub right: Option<Box<Extension>>,
}

/// Why an extension does not apply.
#[derive(Debug)]
pub struct ExtendError {
    pub message: &'static str,
    pub span: Span,
}

/// A media context, by its queries.
pub open spec fn context_view(c: Option<Vec<CssMediaQuery>>) -> Option<Seq<CssMediaQueryView>> {
    match c {
        Some(qs) => Some(queries_view(qs@)),
        None => None,
    }
}

/// An extension restricted to `expected` may extend a selector in
/// `context`: it is restricted to nothing, or the two contexts are the
/// same.
pub open spec fn media_compatible(
    expected: Option<Seq<CssMediaQueryView>>,
    context: Option<Seq<CssMediaQueryView>>,
) -> bool {
    expected is None || (context is Some && context == expected)
}

impl Extension {
    /// An extension that stands for `extender` itself, with the given
    /// specificity or else the extender's maximum.
    pub fn one_off(
        extender: ComplexSelector,
        specificity: Option<i32>,
        is_original: bool,
        span: Span,
    ) -> (e: Self)
        ensures
            e.extender == extender,
            e.specificity == match specificity {
                Some(s) => s,
                None => extender.specificity_spec().max,
            },
            e.target is None,
            e.is_optional,
            e.is_original == is_original,
            e.media_context is None,
            e.span == span,
            e.left is None,
            e.right is None,
    {
        let specificity = match specificity {
            Some(s) => s,
            None => extender.max_specificity(),
        };
        Extension {
            extender,
            target: None,
            specificity,
            is_optional: true,
            is_original,
            media_context: None,
            span,
            left: None,
            right: None,
        }
    }

    /// Checks that this extension may extend a selector in `media_context`:
    /// one written outside any media rule extends anywhere; one written
    /// inside extends only selectors in the same media context.
    pub fn assert_compatible_media_context(
        &self,
        media_context: &Option<Vec<CssMediaQuery>>,
    ) -> (r: Result<(), ExtendError>)
        ensures
            r is Ok <==> media_compatible(context_view(self.media_context), context_view(*media_context)),
            r matches Err(e) ==> e.span == self.span && e.message@
                == "You may not @extend selectors across media queries."@,
    {
        let expected = match &self.media_context {
            Some(ctx) => ctx,
            None => return Ok(()),
        };
        match media_context {
            Some(ctx) => {
                if same_queries(expected, ctx) {
                    return Ok(());
                }
            },
            None => {},
        }
        Err(ExtendError { message: "You may not @extend selectors across media queries.", span: self.span })
    }

    /// This extension with another extender.
    pub fn with_extender(self, extender: ComplexSelector) -> (e: Self)
        ensures
            e == (Extension { extender, ..self }),
    {
        Extension { extender, ..self }
    }
}

} // verus!
