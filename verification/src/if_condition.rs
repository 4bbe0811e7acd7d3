use vstd::prelude::*;
use vstd::string::StringExecFns;

verus! {

/// One piece of an interpolated text.
#[derive(Debug)]
pub enum InterpolationPart {
    /// Literal text.
    String(String),
    /// An interpolated expression `#{...}`, held as its source text.
    Expr(String),
}

/// Text that may hold interpolated expressions.
#[derive(Debug)]
pub struct Interpolation {
    pub contents: Vec<InterpolationPart>,
}

/// The text of an interpolation that holds no expression: the empty text
/// when it has no part, the text of its only part when that part is
/// literal text.
pub open spec fn plain_text(i: Interpolation) -> Option<Seq<char>> {
    if i.contents@.len() == 0 {
        Some(Seq::empty())
    } else if i.contents@.len() == 1 {
        match i.contents@[0] {
            InterpolationPart::String(s) => Some(s@),
            InterpolationPart::Expr(_) => None,
        }
    } else {
        None
    }
}

impl Interpolation {
    /// The text, when this interpolation is plain text.
    pub fn as_plain(&self) -> (r: Option<&str>)
        ensures
            match r {
                Some(s) => plain_text(*self) == Some(s@),
                None => plain_text(*self) is None,
            },
    {
        if self.contents.len() == 0 {
            proof {
                reveal_strlit("");
            }
            Some("")
        } else if self.contents.len() == 1 {
            match &self.contents[0] {
                InterpolationPart::String(s) => Some(s.as_str()),
                InterpolationPart::Expr(_) => None,
            }
        } else {
            None
        }
    }
}

/// An atom of an `if()` condition.
#[derive(Debug)]
pub enum IfConditionAtom {
    /// `sass(...)`, with the expression held as its source text.
    Sass(String),
    /// A plain CSS condition.
    Css(Interpolation),
    /// A CSS condition with arbitrary substitutions (`var()`, `attr()`, ...).
    CssRaw(Interpolation),
    /// An interpolation `#{...}`, held as its source text.
    Interp(String),
}

/// The condition of an `if()` clause.
#[derive(Debug)]
pub enum IfCondition {
    Atom(IfConditionAtom),
    Else,
    Not(Box<IfCondition>),
    Paren(Box<IfCondition>),
    And(Vec<IfCondition>),
    Or(Vec<IfCondition>),
}

/// The condition holds a `sass()` atom, inside parentheses or not.
pub open spec fn has_sass(c: IfCondition) -> bool
    decreases c,
{
    match c {
        IfCondition::Atom(a) => a is Sass,
        IfCondition::Else => false,
        IfCondition::Not(inner) => has_sass(*inner),
        IfCondition::Paren(inner) => has_sass(*inner),
        IfCondition::And(ops) => exists|k: int| 0 <= k < ops@.len() && has_sass(#[trigger] ops@[k]),
        IfCondition::Or(ops) => exists|k: int| 0 <= k < ops@.len() && has_sass(#[trigger] ops@[k]),
    }
}

/// The condition holds a raw substitution or an interpolation outside
/// any parentheses.
pub open spec fn has_raw(c: IfCondition) -> bool
    decreases c,
{
    match c {
        IfCondition::Atom(a) => a is CssRaw || a is Interp,
        IfCondition::Else => false,
        IfCondition::Not(inner) => has_raw(*inner),
        IfCondition::Paren(_) => false,
        IfCondition::And(ops) => exists|k: int| 0 <= k < ops@.len() && has_raw(#[trigger] ops@[k]),
        IfCondition::Or(ops) => exists|k: int| 0 <= k < ops@.len() && has_raw(#[trigger] ops@[k]),
    }
}

/// No scope of the condition mixes `sass()` with raw substitutions: where
/// a scope has a raw substitution, no `sass()` appears in it or in any
/// group below it, and each parenthesized group is such a scope itself.
pub open spec fn sass_raw_ok(c: IfCondition) -> bool
    decreases c, 1nat,
{
    (has_raw(c) ==> !has_sass(c)) && groups_ok(c)
}

/// Every parenthesized group of the condition passes [`sass_raw_ok`].
pub open spec fn groups_ok(c: IfCondition) -> bool
    decreases c, 0nat,
{
    match c {
        IfCondition::Paren(inner) => sass_raw_ok(*inner),
        IfCondition::Not(inner) => groups_ok(*inner),
        IfCondition::And(ops) => forall|k: int| 0 <= k < ops@.len() ==> groups_ok(#[trigger] ops@[k]),
        IfCondition::Or(ops) => forall|k: int| 0 <= k < ops@.len() ==> groups_ok(#[trigger] ops@[k]),
        _ => true,
    }
}

/// Whether the condition holds a `sass()` atom, inside parentheses or not.
pub fn condition_has_sass(cond: &IfCondition) -> (r: bool)
    ensures
        r == has_sass(*cond),
    decreases cond,
{
    match cond {
        IfCondition::Atom(IfConditionAtom::Sass(_)) => true,
        IfCondition::Atom(_) => false,
        IfCondition::Else => false,
        IfCondition::Not(inner) | IfCondition::Paren(inner) => condition_has_sass(inner),
        IfCondition::And(ops) | IfCondition::Or(ops) => any_has_sass(ops),
    }
}

/// Whether some operand holds a `sass()` atom.
fn any_has_sass(ops: &Vec<IfCondition>) -> (r: bool)
    ensures
        r == exists|k: int| 0 <= k < ops@.len() && has_sass(#[trigger] ops@[k]),
    decreases ops,
{
    let mut i: usize = 0;
    while i < ops.len()
        invariant
            i <= ops.len(),
            forall|k: int| 0 <= k < i ==> !has_sass(#[trigger] ops@[k]),
        decreases ops.len() - i,
    {
        proof {
            assert(decreases_to!(ops => ops@[i as int]));
        }
        if condition_has_sass(&ops[i]) {
            return true;
        }
        i = i + 1;
    }
    false
}

/// Whether the condition holds a `sass()` atom, inside parentheses or not.
pub fn condition_contains_sass(cond: &IfCondition) -> (r: bool)
    ensures
        r == has_sass(*cond),
{
    condition_has_sass(cond)
}

/// Whether the condition holds a raw substitution or an interpolation
/// outside any parentheses.
pub fn condition_has_raw(cond: &IfCondition) -> (r: bool)
    ensures
        r == has_raw(*cond),
    decreases cond,
{
    match cond {
        IfCondition::Atom(IfConditionAtom::CssRaw(_)) => true,
        IfCondition::Atom(IfConditionAtom::Interp(_)) => true,
        IfCondition::Atom(_) => false,
        IfCondition::Else => false,
        IfCondition::Not(inner) => condition_has_raw(inner),
        IfCondition::Paren(_) => false,
        IfCondition::And(ops) | IfCondition::Or(ops) => any_has_raw(ops),
    }
}

/// Whether some operand holds a raw substitution outside parentheses.
fn any_has_raw(ops: &Vec<IfCondition>) -> (r: bool)
    ensures
        r == exists|k: int| 0 <= k < ops@.len() && has_raw(#[trigger] ops@[k]),
    decreases ops,
{
    let mut i: usize = 0;
    while i < ops.len()
        invariant
            i <= ops.len(),
            forall|k: int| 0 <= k < i ==> !has_raw(#[trigger] ops@[k]),
        decreases ops.len() - i,
    {
        proof {
            assert(decreases_to!(ops => ops@[i as int]));
        }
        if condition_has_raw(&ops[i]) {
            return true;
        }
        i = i + 1;
    }
    false
}

/// The condition itself, or what it groups when it is a parenthesized
/// group.
pub open spec fn unwrapped(c: IfCondition) -> IfCondition {
    match c {
        IfCondition::Paren(inner) => *inner,
        other => other,
    }
}

/// Removes one level of parentheses around the condition.
pub fn unwrap_paren(cond: IfCondition) -> (r: IfCondition)
    ensures
        r == unwrapped(cond),
{
    match cond {
        IfCondition::Paren(inner) => *inner,
        other => other,
    }
}

/// Why a condition is refused.
#[derive(Debug, Clone, Copy, PartialEq, Eq, Structural)]
pub enum IfConditionError {
    /// A scope has both a raw substitution and a `sass()` atom.
    SassWithSubstitutions,
}

impl IfConditionError {
    /// The message reported for this error.
    pub fn message(&self) -> (m: &'static str)
        ensures
            m@ == "if() conditions with arbitrary substitutions may not contain sass() expressions."@,
    {
        "if() conditions with arbitrary substitutions may not contain sass() expressions."
    }
}

/// Checks that no scope of the condition mixes `sass()` with raw
/// substitutions: where a scope (the condition outside any parentheses)
/// has a raw substitution, `sass()` may appear nowhere in it, parentheses
/// included; each parenthesized group is checked as a scope of its own.
pub fn check_no_sass_with_raw(condition: &IfCondition) -> (r: Result<(), IfConditionError>)
    ensures
        r is Ok <==> sass_raw_ok(*condition),
        r is Err ==> r == Err::<(), IfConditionError>(IfConditionError::SassWithSubstitutions),
    decreases condition, 1nat,
{
    if condition_has_raw(condition) {
        if condition_has_sass(condition) {
            return Err(IfConditionError::SassWithSubstitutions);
        }
    }
    check_parens_for_sass_raw(condition)
}

/// Checks each parenthesized group of the condition as a scope of its own.
pub fn check_parens_for_sass_raw(condition: &IfCondition) -> (r: Result<(), IfConditionError>)
    ensures
        r is Ok <==> groups_ok(*condition),
        r is Err ==> r == Err::<(), IfConditionError>(IfConditionError::SassWithSubstitutions),
    decreases condition, 0nat,
{
    match condition {
        IfCondition::Paren(inner) => check_no_sass_with_raw(inner),
        IfCondition::Not(inner) => check_parens_for_sass_raw(inner),
        IfCondition::And(ops) | IfCondition::Or(ops) => check_groups_all(ops),
        _ => Ok(()),
    }
}

fn check_groups_all(ops: &Vec<IfCondition>) -> (r: Result<(), IfConditionError>)
    ensures
        r is Ok <==> forall|k: int| 0 <= k < ops@.len() ==> groups_ok(#[trigger] ops@[k]),
        r is Err ==> r == Err::<(), IfConditionError>(IfConditionError::SassWithSubstitutions),
    decreases ops, 0nat,
{
    let mut i: usize = 0;
    while i < ops.len()
        invariant
            i <= ops.len(),
            forall|k: int| 0 <= k < i ==> groups_ok(#[trigger] ops@[k]),
        decreases ops.len() - i,
    {
        proof {
            assert(decreases_to!(ops => ops@[i as int]));
        }
        match check_parens_for_sass_raw(&ops[i]) {
            Ok(()) => {},
            Err(e) => {
                return Err(e);
            },
        }
        i = i + 1;
    }
    Ok(())
}

/// Every atom of the condition is a CSS atom: no `sass()` atom and no
/// interpolation is left.
pub open spec fn evaluated(c: IfCondition) -> bool
    decreases c,
{
    match c {
        IfCondition::Atom(a) => a is Css || a is CssRaw,
        IfCondition::Else => true,
        IfCondition::Not(inner) => evaluated(*inner),
        IfCondition::Paren(inner) => evaluated(*inner),
        IfCondition::And(ops) => forall|k: int| 0 <= k < ops@.len() ==> evaluated(#[trigger] ops@[k]),
        IfCondition::Or(ops) => forall|k: int| 0 <= k < ops@.len() ==> evaluated(#[trigger] ops@[k]),
    }
}

/// The text of a CSS atom: its plain text, or nothing.
pub open spec fn atom_text(i: Interpolation) -> Seq<char> {
    match plain_text(i) {
        Some(t) => t,
        None => Seq::empty(),
    }
}

/// The CSS text of a condition: `else`, the text of an atom, `not ` before
/// a negated condition, a group in parentheses, and operands joined by
/// ` and ` or ` or `.
pub open spec fn serialized(c: IfCondition) -> Seq<char>
    decreases c, 0int,
{
    match c {
        IfCondition::Else => seq!['e', 'l', 's', 'e'],
        IfCondition::Atom(IfConditionAtom::Css(i)) => atom_text(i),
        IfCondition::Atom(IfConditionAtom::CssRaw(i)) => atom_text(i),
        IfCondition::Atom(_) => Seq::empty(),
        IfCondition::Not(inner) => seq!['n', 'o', 't', ' '] + serialized(*inner),
        IfCondition::Paren(inner) => seq!['('] + serialized(*inner) + seq![')'],
        IfCondition::And(ops) => joined(ops, seq![' ', 'a', 'n', 'd', ' '], ops@.len() as int),
        IfCondition::Or(ops) => joined(ops, seq![' ', 'o', 'r', ' '], ops@.len() as int),
    }
}

/// The CSS text of the first `n` operands, joined by `sep`.
pub open spec fn joined(ops: Vec<IfCondition>, sep: Seq<char>, n: int) -> Seq<char>
    decreases ops, n,
{
    if n <= 0 || n > ops@.len() {
        Seq::empty()
    } else if n == 1 {
        serialized(ops@[0])
    } else {
        joined(ops, sep, n - 1) + sep + serialized(ops@[n - 1])
    }
}

/// Writes an evaluated condition as CSS text.
pub fn serialize_if_condition(condition: &IfCondition) -> (r: String)
    requires
        evaluated(*condition),
    ensures
        r@ == serialized(*condition),
    decreases condition,
{
    match condition {
        IfCondition::Else => {
            proof {
                reveal_strlit("else");
                assert("else"@ =~= seq!['e', 'l', 's', 'e']);
            }
            String::from_str("else")
        },
        IfCondition::Atom(IfConditionAtom::Css(interp)) => atom_string(interp),
        IfCondition::Atom(IfConditionAtom::CssRaw(interp)) => atom_string(interp),
        IfCondition::Atom(_) => {
            proof {
                reveal_strlit("");
            }
            String::from_str("")
        },
        IfCondition::Not(inner) => {
            let inner_str = serialize_if_condition(inner);
            proof {
                reveal_strlit("not ");
                assert("not "@ =~= seq!['n', 'o', 't', ' ']);
            }
            let mut out = String::from_str("not ");
            out.append(inner_str.as_str());
            assert(out@ =~= serialized(*condition));
            out
        },
        IfCondition::Paren(inner) => {
            let inner_str = serialize_if_condition(inner);
            proof {
                reveal_strlit("(");
                reveal_strlit(")");
                assert("("@ =~= seq!['(']);
                assert(")"@ =~= seq![')']);
            }
            let mut out = String::from_str("(");
            out.append(inner_str.as_str());
            out.append(")");
            assert(out@ =~= serialized(*condition));
            out
        },
        IfCondition::And(ops) => {
            proof {
                reveal_strlit(" and ");
                assert(" and "@ =~= seq![' ', 'a', 'n', 'd', ' ']);
            }
            serialize_joined(ops, " and ")
        },
        IfCondition::Or(ops) => {
            proof {
                reveal_strlit(" or ");
                assert(" or "@ =~= seq![' ', 'o', 'r', ' ']);
            }
            serialize_joined(ops, " or ")
        },
    }
}

/// The plain text of an atom, or the empty text.
fn atom_string(interp: &Interpolation) -> (r: String)
    ensures
        r@ == atom_text(*interp),
{
    proof {
        reveal_strlit("");
    }
    match interp.as_plain() {
        Some(t) => String::from_str(t),
        None => String::from_str(""),
    }
}

/// Writes the operands as CSS text, joined by `sep`.
fn serialize_joined(ops: &Vec<IfCondition>, sep: &str) -> (r: String)
    requires
        forall|k: int| 0 <= k < ops@.len() ==> evaluated(#[trigger] ops@[k]),
    ensures
        r@ == joined(*ops, sep@, ops@.len() as int),
    decreases ops,
{
    let mut out = String::new();
    let mut i: usize = 0;
    while i < ops.len()
        invariant
            i <= ops.len(),
            forall|k: int| 0 <= k < ops@.len() ==> evaluated(#[trigger] ops@[k]),
            out@ == joined(*ops, sep@, i as int),
        decreases ops.len() - i,
    {
        proof {
            assert(decreases_to!(ops => ops@[i as int]));
        }
        if i > 0 {
            out.append(sep);
        }
        let part = serialize_if_condition(&ops[i]);
        out.append(part.as_str());
        proof {
            if i == 0 {
                assert(out@ =~= joined(*ops, sep@, 1));
            }
        }
        i = i + 1;
    }
    out
}

proof fn lemma_groups_ok_without_sass(c: IfCondition)
    requires
        !has_sass(c),
    ensures
        groups_ok(c),
    decreases c,
{
    match c {
        IfCondition::Paren(inner) => {
            lemma_groups_ok_without_sass(*inner);
            assert(sass_raw_ok(*inner));
        },
        IfCondition::Not(inner) => lemma_groups_ok_without_sass(*inner),
        IfCondition::And(ops) => {
            assert forall|k: int| 0 <= k < ops@.len() implies groups_ok(#[trigger] ops@[k]) by {
                assert(!has_sass(ops@[k]));
                lemma_groups_ok_without_sass(ops@[k]);
            }
        },
        IfCondition::Or(ops) => {
            assert forall|k: int| 0 <= k < ops@.len() implies groups_ok(#[trigger] ops@[k]) by {
                assert(!has_sass(ops@[k]));
                lemma_groups_ok_without_sass(ops@[k]);
            }
        },
        _ => {},
    }
}

/// A condition with no `sass()` atom anywhere passes the check against
/// mixing `sass()` with raw substitutions.
pub proof fn lemma_no_sass_passes_check(c: IfCondition)
    requires
        !has_sass(c),
    ensures
        sass_raw_ok(c),
{
    lemma_groups_ok_without_sass(c);
}


/// Some parenthesized group of the condition, at any depth, mixes a raw
/// substitution with `sass()` in its own scope.
pub open spec fn contains_mixed_group(c: IfCondition) -> bool
    decreases c,
{
    match c {
        IfCondition::Paren(inner) => (has_raw(*inner) && has_sass(*inner)) || contains_mixed_group(
            *inner,
        ),
        IfCondition::Not(inner) => contains_mixed_group(*inner),
        IfCondition::And(ops) => exists|k: int|
            0 <= k < ops@.len() && contains_mixed_group(#[trigger] ops@[k]),
        IfCondition::Or(ops) => exists|k: int|
            0 <= k < ops@.len() && contains_mixed_group(#[trigger] ops@[k]),
        _ => false,
    }
}

/// A parenthesized group that mixes a raw substitution with `sass()` is
/// refused wherever it stands: under `not`, in an `and`, in an `or`, or
/// inside another group.
pub proof fn lemma_mixed_group_refused(c: IfCondition)
    requires
        contains_mixed_group(c),
    ensures
        !groups_ok(c),
        !sass_raw_ok(c),
    decreases c,
{
    match c {
        IfCondition::Paren(inner) => {
            if !(has_raw(*inner) && has_sass(*inner)) {
                lemma_mixed_group_refused(*inner);
            }
        },
        IfCondition::Not(inner) => {
            lemma_mixed_group_refused(*inner);
        },
        IfCondition::And(ops) => {
            let k = choose|k: int| 0 <= k < ops@.len() && contains_mixed_group(#[trigger] ops@[k]);
            assert(decreases_to!(ops => ops@[k]));
            lemma_mixed_group_refused(ops@[k]);
        },
        IfCondition::Or(ops) => {
            let k = choose|k: int| 0 <= k < ops@.len() && contains_mixed_group(#[trigger] ops@[k]);
            assert(decreases_to!(ops => ops@[k]));
            lemma_mixed_group_refused(ops@[k]);
        },
        _ => {},
    }
}

/// An operand that fails the check makes the whole `and` or `or` fail it.
pub proof fn lemma_operand_refusal_spreads(c: IfCondition, k: int)
    requires
        c is And || c is Or,
        0 <= k < (match c {
            IfCondition::And(ops) => ops@.len(),
            IfCondition::Or(ops) => ops@.len(),
            _ => 0,
        }),
        !groups_ok(match c {
            IfCondition::And(ops) => ops@[k],
            IfCondition::Or(ops) => ops@[k],
            _ => c,
        }),
    ensures
        !groups_ok(c),
        !sass_raw_ok(c),
{
}


/// The condition holds a raw substitution or an interpolation somewhere,
/// inside parentheses or not.
pub open spec fn raw_anywhere(c: IfCondition) -> bool
    decreases c,
{
    match c {
        IfCondition::Atom(a) => a is CssRaw || a is Interp,
        IfCondition::Else => false,
        IfCondition::Not(inner) => raw_anywhere(*inner),
        IfCondition::Paren(inner) => raw_anywhere(*inner),
        IfCondition::And(ops) => exists|k: int|
            0 <= k < ops@.len() && raw_anywhere(#[trigger] ops@[k]),
        IfCondition::Or(ops) => exists|k: int|
            0 <= k < ops@.len() && raw_anywhere(#[trigger] ops@[k]),
    }
}

/// A condition with no raw substitution or interpolation anywhere passes
/// the check, whatever `sass()` atoms it holds.
pub proof fn lemma_no_raw_passes_check(c: IfCondition)
    requires
        !raw_anywhere(c),
    ensures
        sass_raw_ok(c),
        !has_raw(c),
    decreases c,
{
    match c {
        IfCondition::Paren(inner) => {
            lemma_no_raw_passes_check(*inner);
        },
        IfCondition::Not(inner) => {
            lemma_no_raw_passes_check(*inner);
        },
        IfCondition::And(ops) => {
            assert forall|k: int| 0 <= k < ops@.len() implies groups_ok(#[trigger] ops@[k])
                && !has_raw(ops@[k]) by {
                assert(!raw_anywhere(ops@[k]));
                assert(decreases_to!(ops => ops@[k]));
                lemma_no_raw_passes_check(ops@[k]);
            }
        },
        IfCondition::Or(ops) => {
            assert forall|k: int| 0 <= k < ops@.len() implies groups_ok(#[trigger] ops@[k])
                && !has_raw(ops@[k]) by {
                assert(!raw_anywhere(ops@[k]));
                assert(decreases_to!(ops => ops@[k]));
                lemma_no_raw_passes_check(ops@[k]);
            }
        },
        _ => {},
    }
}

} // verus!
