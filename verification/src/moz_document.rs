use vstd::prelude::*;
use vstd::string::StringExecFns;
use vstd::string::StrSliceExecFns;

use crate::if_condition::{Interpolation, InterpolationPart};

verus! {

/// A character with the Unicode `White_Space` property.
pub open spec fn is_white_space(c: char) -> bool {
    let u = c as u32;
    ||| 0x09 <= u <= 0x0D
    ||| u == 0x20
    ||| u == 0x85
    ||| u == 0xA0
    ||| u == 0x1680
    ||| 0x2000 <= u <= 0x200A
    ||| u == 0x2028
    ||| u == 0x2029
    ||| u == 0x202F
    ||| u == 0x205F
    ||| u == 0x3000
}

/// `s` without its leading white space.
pub open spec fn trim_start_ws(s: Seq<char>) -> Seq<char>
    decreases s.len(),
{
    if s.len() > 0 && is_white_space(s[0]) {
        trim_start_ws(s.drop_first())
    } else {
        s
    }
}

/// `s` without its trailing white space.
pub open spec fn trim_end_ws(s: Seq<char>) -> Seq<char>
    decreases s.len(),
{
    if s.len() > 0 && is_white_space(s.last()) {
        trim_end_ws(s.drop_last())
    } else {
        s
    }
}

/// `s` without its leading and trailing white space.
pub open spec fn trimmed(s: Seq<char>) -> Seq<char> {
    trim_end_ws(trim_start_ws(s))
}

/// Whether `c` has the Unicode `White_Space` property.
fn is_white_space_char(c: char) -> (r: bool)
    ensures
        r == is_white_space(c),
{
    let u = c as u32;
    (0x09 <= u && u <= 0x0D) || u == 0x20 || u == 0x85 || u == 0xA0 || u == 0x1680 || (0x2000 <= u
        && u <= 0x200A) || u == 0x2028 || u == 0x2029 || u == 0x202F || u == 0x205F || u == 0x3000
}

/// The text without leading and trailing characters of the Unicode
/// `White_Space` property, as `str::trim` gives it.
fn trim(s: &str) -> (r: &str)
    ensures
        r@ == trimmed(s@),
{
    let n = s.unicode_len();
    let mut start: usize = 0;
    assert(s@.subrange(0, n as int) =~= s@);
    loop
        invariant
            start <= n,
            n == s@.len(),
            trim_start_ws(s@) == trim_start_ws(s@.subrange(start as int, n as int)),
        ensures
            start <= n,
            trim_start_ws(s@) == s@.subrange(start as int, n as int),
        decreases n - start,
    {
        if start == n {
            assert(s@.subrange(start as int, n as int) =~= Seq::<char>::empty());
            break;
        }
        let c = s.get_char(start);
        if !is_white_space_char(c) {
            assert(s@.subrange(start as int, n as int)[0] == c);
            break;
        }
        proof {
            assert(s@.subrange(start as int, n as int).drop_first() =~= s@.subrange(
                start + 1,
                n as int,
            ));
            assert(s@.subrange(start as int, n as int)[0] == c);
        }
        start = start + 1;
    }
    let mut end: usize = n;
    loop
        invariant
            start <= end <= n,
            n == s@.len(),
            trim_start_ws(s@) == s@.subrange(start as int, n as int),
            trim_end_ws(s@.subrange(start as int, n as int)) == trim_end_ws(
                s@.subrange(start as int, end as int),
            ),
        ensures
            start <= end <= n,
            trim_end_ws(s@.subrange(start as int, n as int)) == s@.subrange(
                start as int,
                end as int,
            ),
        decreases end - start,
    {
        if end == start {
            assert(s@.subrange(start as int, end as int) =~= Seq::<char>::empty());
            break;
        }
        let c = s.get_char(end - 1);
        if !is_white_space_char(c) {
            assert(s@.subrange(start as int, end as int).last() == c);
            break;
        }
        proof {
            assert(s@.subrange(start as int, end as int).drop_last() =~= s@.subrange(
                start as int,
                end - 1,
            ));
            assert(s@.subrange(start as int, end as int).last() == c);
        }
        end = end - 1;
    }
    s.substring_char(start, end)
}

/// The nesting depth of parentheses before position `i`: the opening
/// minus the closing parentheses in `s[..i]`.
pub open spec fn depth_at(s: Seq<char>, i: int) -> int
    decreases i,
{
    if i <= 0 {
        0
    } else {
        depth_at(s, i - 1) + if s[i - 1] == '(' {
            1int
        } else if s[i - 1] == ')' {
            -1int
        } else {
            0int
        }
    }
}

/// A comma at position `i` outside any parentheses.
pub open spec fn top_level_comma(s: Seq<char>, i: int) -> bool {
    0 <= i < s.len() && s[i] == ',' && depth_at(s, i) == 0
}

/// The parts of `s[..n]` between top-level commas: each character joins
/// the last part, but a top-level comma, which starts a new part.
pub open spec fn split_prefix(s: Seq<char>, n: int) -> Seq<Seq<char>>
    decreases n,
{
    if n <= 0 {
        seq![Seq::<char>::empty()]
    } else {
        let p = split_prefix(s, n - 1);
        if top_level_comma(s, n - 1) {
            p.push(Seq::empty())
        } else {
            p.update(p.len() - 1, p.last().push(s[n - 1]))
        }
    }
}

/// The parts of `s` between commas that are not nested in parentheses.
pub open spec fn split_top_level(s: Seq<char>) -> Seq<Seq<char>> {
    split_prefix(s, s.len() as int)
}

proof fn lemma_split_prefix_nonempty(s: Seq<char>, n: int)
    ensures
        split_prefix(s, n).len() >= 1,
    decreases n,
{
    if n > 0 {
        lemma_split_prefix_nonempty(s, n - 1);
    }
}

/// Splits `s` on the commas that are not nested inside parentheses.
pub fn split_top_level_commas(s: &str) -> (parts: Vec<&str>)
    requires
        s@.len() <= i32::MAX,
    ensures
        parts@.len() == split_top_level(s@).len(),
        forall|k: int| 0 <= k < parts@.len() ==> #[trigger] parts@[k]@ == split_top_level(s@)[k],
{
    let n = s.unicode_len();
    let mut parts: Vec<&str> = Vec::new();
    let mut depth: i32 = 0;
    let mut start: usize = 0;
    let mut i: usize = 0;
    while i < n
        invariant
            n == s@.len(),
            n <= i32::MAX,
            start <= i <= n,
            depth == depth_at(s@, i as int),
            -(i as int) <= depth <= i,
            parts@.len() + 1 == split_prefix(s@, i as int).len(),
            forall|k: int| 0 <= k < parts@.len() ==> #[trigger] parts@[k]@ == split_prefix(s@, i as int)[k],
            split_prefix(s@, i as int).last() == s@.subrange(start as int, i as int),
        decreases n - i,
    {
        let c = s.get_char(i);
        let ghost p = split_prefix(s@, i as int);
        proof {
            lemma_split_prefix_nonempty(s@, i as int);
        }
        if c == '(' {
            depth = depth + 1;
        } else if c == ')' {
            depth = depth - 1;
        } else if c == ',' && depth == 0 {
            parts.push(s.substring_char(start, i));
            start = i + 1;
        }
        proof {
            let q = split_prefix(s@, i + 1);
            if c == ',' && depth == 0 {
                assert(q == p.push(Seq::empty()));
                assert(s@.subrange(start as int, i + 1) =~= Seq::<char>::empty());
            } else {
                assert(q == p.update(p.len() - 1, p.last().push(c)));
                assert(s@.subrange(start as int, i + 1) =~= s@.subrange(start as int, i as int).push(c));
            }
        }
        i = i + 1;
    }
    proof {
        lemma_split_prefix_nonempty(s@, n as int);
    }
    parts.push(s.substring_char(start, n));
    parts
}

/// The text of an interpolation that holds no expression: its literal
/// parts, concatenated.
pub open spec fn static_text(parts: Seq<InterpolationPart>) -> Option<Seq<char>>
    decreases parts.len(),
{
    if parts.len() == 0 {
        Some(Seq::empty())
    } else {
        match (static_text(parts.drop_last()), parts.last()) {
            (Some(t), InterpolationPart::String(s)) => Some(t + s@),
            _ => None,
        }
    }
}

/// A term that selects everything: `url-prefix()` with no argument or an
/// empty string argument.
pub open spec fn selects_everything(term: Seq<char>) -> bool {
    ||| term == "url-prefix()"@
    ||| term == "url-prefix(\"\")"@
    ||| term == "url-prefix('')"@
}

/// An `@-moz-document` prelude calls for a deprecation warning unless it
/// is static text that, trimmed, is empty or splits at its top-level
/// commas into terms that each, trimmed, select everything.
pub open spec fn needs_deprecation_warning(value: Interpolation) -> bool {
    match static_text(value.contents@) {
        None => true,
        Some(t) => {
            let parts = split_top_level(trimmed(t));
            trimmed(t).len() != 0 && exists|k: int|
                0 <= k < parts.len() && !selects_everything(trimmed(#[trigger] parts[k]))
        },
    }
}

/// Whether a trimmed term selects everything.
fn is_select_everything(term: &str) -> (r: bool)
    ensures
        r == selects_everything(term@),
{
    let t = String::from_str(term);
    t == String::from_str("url-prefix()") || t == String::from_str("url-prefix(\"\")") || t
        == String::from_str("url-prefix('')")
}

/// Whether an `@-moz-document` prelude calls for the deprecation warning:
/// it does unless every top-level comma-separated term is `url-prefix()`
/// with no argument or an empty string argument. Any interpolated
/// expression calls for it.
pub fn moz_document_prelude_needs_deprecation_warning(value: &Interpolation) -> (r: bool)
    requires
        static_text(value.contents@) matches Some(t) ==> t.len() <= i32::MAX,
    ensures
        r == needs_deprecation_warning(*value),
{
    let mut text = String::new();
    let mut i: usize = 0;
    while i < value.contents.len()
        invariant
            i <= value.contents.len(),
            static_text(value.contents@.take(i as int)) == Some(text@),
        decreases value.contents.len() - i,
    {
        proof {
            assert(value.contents@.take(i + 1).drop_last() =~= value.contents@.take(i as int));
        }
        match &value.contents[i] {
            InterpolationPart::String(s) => text.append(s.as_str()),
            InterpolationPart::Expr(_) => {
                proof {
                    lemma_static_text_none(value.contents@, i + 1);
                }
                return true;
            },
        }
        i = i + 1;
    }
    proof {
        assert(value.contents@.take(i as int) =~= value.contents@);
    }
    let trimmed_text = trim(text.as_str());
    if trimmed_text.unicode_len() == 0 {
        return false;
    }
    proof {
        lemma_trimmed_len(text@);
    }
    let terms = split_top_level_commas(trimmed_text);
    let mut k: usize = 0;
    while k < terms.len()
        invariant
            static_text(value.contents@) == Some(text@),
            trimmed_text@ == trimmed(text@),
            trimmed(text@).len() != 0,
            k <= terms.len(),
            terms@.len() == split_top_level(trimmed_text@).len(),
            forall|j: int| 0 <= j < terms@.len() ==> #[trigger] terms@[j]@ == split_top_level(trimmed_text@)[j],
            forall|j: int| 0 <= j < k ==> selects_everything(trimmed(#[trigger] split_top_level(trimmed_text@)[j])),
        decreases terms.len() - k,
    {
        let term = trim(terms[k]);
        if !is_select_everything(term) {
            proof {
                let parts = split_top_level(trimmed(text@));
                assert(parts == split_top_level(trimmed_text@));
                assert(!selects_everything(trimmed(parts[k as int])));
                assert(static_text(value.contents@) == Some(text@));
                assert(trimmed(text@).len() != 0);
            }
            return true;
        }
        k = k + 1;
    }
    false
}

proof fn lemma_static_text_none(parts: Seq<InterpolationPart>, n: int)
    requires
        0 < n <= parts.len(),
        parts[n - 1] is Expr,
    ensures
        static_text(parts) is None,
    decreases parts.len(),
{
    if n < parts.len() {
        assert(parts.drop_last()[n - 1] == parts[n - 1]);
        lemma_static_text_none(parts.drop_last(), n);
    } else {
        assert(parts.last() == parts[n - 1]);
    }
}

proof fn lemma_trim_start_len(s: Seq<char>)
    ensures
        trim_start_ws(s).len() <= s.len(),
    decreases s.len(),
{
    if s.len() > 0 && is_white_space(s[0]) {
        lemma_trim_start_len(s.drop_first());
    }
}

proof fn lemma_trim_end_len(s: Seq<char>)
    ensures
        trim_end_ws(s).len() <= s.len(),
    decreases s.len(),
{
    if s.len() > 0 && is_white_space(s.last()) {
        lemma_trim_end_len(s.drop_last());
    }
}

proof fn lemma_trimmed_len(s: Seq<char>)
    ensures
        trimmed(s).len() <= s.len(),
{
    lemma_trim_start_len(s);
    lemma_trim_end_len(trim_start_ws(s));
}

/// The parts, with a comma between each two.
pub open spec fn join_commas(parts: Seq<Seq<char>>) -> Seq<char>
    decreases parts.len(),
{
    if parts.len() == 0 {
        Seq::empty()
    } else if parts.len() == 1 {
        parts[0]
    } else {
        join_commas(parts.drop_last()) + seq![','] + parts.last()
    }
}

proof fn lemma_split_prefix_rejoins(s: Seq<char>, n: int)
    requires
        0 <= n <= s.len(),
    ensures
        join_commas(split_prefix(s, n)) == s.take(n),
    decreases n,
{
    if n == 0 {
        assert(s.take(0) =~= Seq::<char>::empty());
    } else {
        lemma_split_prefix_rejoins(s, n - 1);
        lemma_split_prefix_nonempty(s, n - 1);
        let p = split_prefix(s, n - 1);
        let q = split_prefix(s, n);
        if top_level_comma(s, n - 1) {
            assert(q.drop_last() =~= p);
            assert(s.take(n) =~= s.take(n - 1) + seq![','] + Seq::<char>::empty());
        } else {
            if p.len() == 1 {
                assert(s.take(n) =~= s.take(n - 1).push(s[n - 1]));
            } else {
                assert(q.drop_last() =~= p.drop_last());
                assert(join_commas(q) =~= join_commas(p).push(s[n - 1]));
                assert(s.take(n) =~= s.take(n - 1).push(s[n - 1]));
            }
        }
    }
}

/// The parts that `split_top_level_commas` gives, joined again with
/// commas, are the text that was split.
pub proof fn lemma_split_rejoins(s: Seq<char>)
    ensures
        join_commas(split_top_level(s)) == s,
{
    lemma_split_prefix_rejoins(s, s.len() as int);
    assert(s.take(s.len() as int) =~= s);
}

} // verus!
