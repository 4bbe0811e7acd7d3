use vstd::prelude::*;
use vstd::string::StringExecFns;

use crate::options::{after_last_dot, after_last_slash, last_dot, last_slash, path_extension};
use vstd::string::StrSliceExecFns;
use crate::path::{plain_char, plain_name, separator, slash_path};

verus! {

/// The directory part of a path that every platform reads alike and finds
/// again as the parent of a file in it: empty, `/`, or pieces that are not
/// empty or `.`, each followed by `/`.
pub open spec fn clean_dir(d: Seq<char>) -> bool {
    ||| d.len() == 0
    ||| d == seq!['/']
    ||| {
        &&& d.len() >= 2
        &&& d.last() == '/'
        &&& slash_path(d)
        &&& forall|i: int| 1 <= i < d.len() && #[trigger] d[i] == '/' ==> d[i - 1] != '/'
        &&& forall|i: int|
            0 <= i < d.len() - 1 && #[trigger] d[i] == '.' ==> !((i == 0 || d[i - 1] == '/') && d[i
                + 1] == '/')
    }
}

/// The text of `p` up to and with its last `/`.
pub open spec fn dir_part(p: Seq<char>) -> Seq<char> {
    p.take(last_slash(p) + 1)
}

/// A path made of a clean directory part and a plain file name.
pub open spec fn clean_file_path(p: Seq<char>) -> bool {
    clean_dir(dir_part(p)) && plain_name(after_last_slash(p))
}

/// The stem of a file name: all of it before its last `.`, or all of it
/// where that `.` is missing or comes first.
pub open spec fn file_stem(f: Seq<char>) -> Seq<char> {
    if last_dot(f) <= 0 {
        f
    } else {
        f.take(last_dot(f))
    }
}

/// `p` with the extension of its file name replaced by `e`.
pub open spec fn with_ext(p: Seq<char>, e: Seq<char>) -> Seq<char> {
    dir_part(p) + file_stem(after_last_slash(p)) + seq!['.'] + e
}

/// The parent directory of a clean file path: its directory part without
/// the last `/`, except that the root stays `/`.
pub open spec fn parent_text(p: Seq<char>) -> Seq<char> {
    let d = dir_part(p);
    if d.len() <= 1 {
        d
    } else {
        d.drop_last()
    }
}

/// The partial of `p` (its file name with `_` before it) in the same
/// directory, the last separator written as `sep`.
pub open spec fn partial_text(p: Seq<char>, sep: char) -> Seq<char> {
    let d = dir_part(p);
    let f = after_last_slash(p);
    if d.len() <= 1 {
        d + seq!['_'] + f
    } else {
        d.drop_last().push(sep) + seq!['_'] + f
    }
}

/// `t` is the partial of `p`, written with `/` or `\\` before its name.
pub open spec fn is_partial_of(t: Seq<char>, p: Seq<char>) -> bool {
    exists|sep: char| separator(sep) && t == partial_text(p, sep)
}

/// `t` is `base`, then `/` or `\\`, then `name`.
pub open spec fn joined_with_separator(t: Seq<char>, base: Seq<char>, name: Seq<char>) -> bool {
    exists|sep: char| separator(sep) && t == base.push(sep) + name
}

/// The texts of strings.
pub open spec fn texts(v: Seq<String>) -> Seq<Seq<char>> {
    v.map_values(|s: String| s@)
}

/// Each text names its candidate: the candidate's path itself, or, where
/// its flag is set, the partial of that path.
pub open spec fn names_candidates(t: Seq<Seq<char>>, cands: Seq<(Seq<char>, bool)>) -> bool {
    &&& t.len() == cands.len()
    &&& forall|k: int|
        0 <= k < t.len() ==> if cands[k].1 {
            is_partial_of(#[trigger] t[k], cands[k].0)
        } else {
            t[k] == cands[k].0
        }
}

/// The Sass candidates for `p` with extensions `sass` and `scss`: for each,
/// the partial first, then the file itself.
pub open spec fn sass_group(p: Seq<char>, sass: Seq<char>, scss: Seq<char>) -> Seq<
    (Seq<char>, bool),
> {
    seq![(with_ext(p, sass), true), (with_ext(p, sass), false), (with_ext(p, scss), true), (with_ext(p, scss), false)]
}

/// The CSS candidates for `p` with extension `e`: the file, then its
/// partial.
pub open spec fn css_pair(p: Seq<char>, e: Seq<char>) -> Seq<(Seq<char>, bool)> {
    seq![(with_ext(p, e), false), (with_ext(p, e), true)]
}

/// The files an import of `p` may load, in three groups tried in turn:
/// the import-only files (for `@import`), the Sass files, then the CSS
/// files. Within a Sass group `.sass` comes before `.scss` and a partial
/// before its file; the import-only CSS files come before the others.
pub open spec fn candidate_groups(p: Seq<char>, for_import: bool) -> (
    Seq<(Seq<char>, bool)>,
    Seq<(Seq<char>, bool)>,
    Seq<(Seq<char>, bool)>,
) {
    (
        if for_import {
            sass_group(p, "import.sass"@, "import.scss"@)
        } else {
            Seq::empty()
        },
        sass_group(p, "sass"@, "scss"@),
        if for_import {
            css_pair(p, "import.css"@) + css_pair(p, "css"@)
        } else {
            css_pair(p, "css"@)
        },
    )
}

/// `Path::with_extension`, as text. Stated: for a clean file path and a
/// non-empty extension, the file stem (as std defines it: the name before
/// its last `.`, unless that `.` is missing or comes first) is kept and
/// `.` and the extension follow; the directory part is kept as written.
/// Nothing is stated of other paths. std panics on an extension with a
/// separator, which `requires` leaves out.
#[verifier::external_body]
fn path_with_extension(path: &str, ext: &str) -> (r: String)
    requires
        forall|j: int| 0 <= j < ext@.len() ==> plain_char(#[trigger] ext@[j]),
    ensures
        clean_file_path(path@) && ext@.len() > 0 ==> r@ == with_ext(path@, ext@),
{
    std::path::Path::new(path).with_extension(ext).to_string_lossy().into_owned()
}

/// `Path::parent`, as text. Stated: a clean file path has a parent, its
/// directory part without the last `/` (the root stays `/`, and a bare
/// file name has the empty parent). Nothing is stated of other paths.
#[verifier::external_body]
fn path_parent(path: &str) -> (r: Option<String>)
    ensures
        clean_file_path(path@) ==> r is Some && r.unwrap()@ == parent_text(path@),
{
    match std::path::Path::new(path).parent() {
        Some(d) => Some(d.to_string_lossy().into_owned()),
        None => None,
    }
}

/// `Path::file_name`, as text. Stated: the file name of a clean file path
/// is the text after its last `/`. Nothing is stated of other paths.
#[verifier::external_body]
fn path_file_name(path: &str) -> (r: Option<String>)
    ensures
        clean_file_path(path@) ==> r is Some && r.unwrap()@ == after_last_slash(path@),
{
    match std::path::Path::new(path).file_name() {
        Some(f) => Some(f.to_string_lossy().into_owned()),
        None => None,
    }
}

/// `Path::join`, as text. Stated for a plain name: joined to the empty
/// path it stays as it is, joined to `/` it follows it, and joined to a
/// directory that would be clean with a `/` after it, it follows that
/// directory and the platform's separator (`/` or `\\`, which one is not
/// stated). Nothing is stated of other paths.
#[verifier::external_body]
fn path_join(base: &str, name: &str) -> (r: String)
    ensures
        plain_name(name@) && base@.len() == 0 ==> r@ == name@,
        plain_name(name@) && base@ == seq!['/'] ==> r@ == base@ + name@,
        plain_name(name@) && base@.len() > 0 && clean_dir(base@.push('/'))
            ==> joined_with_separator(r@, base@, name@),
{
    std::path::Path::new(base).join(name).to_string_lossy().into_owned()
}

/// The last `.` of `s` stands inside it, or is missing.
proof fn lemma_last_dot_range(s: Seq<char>)
    ensures
        -1 <= last_dot(s) < s.len(),
    decreases s.len(),
{
    if s.len() > 0 {
        lemma_last_dot_range(s.drop_last());
    }
}

/// Where the last `/` of `s` stands.
proof fn lemma_last_slash(s: Seq<char>)
    ensures
        -1 <= last_slash(s) < s.len(),
        last_slash(s) >= 0 ==> s[last_slash(s)] == '/',
        forall|j: int| last_slash(s) < j < s.len() ==> s[j] != '/',
    decreases s.len(),
{
    if s.len() > 0 {
        let t = s.drop_last();
        lemma_last_slash(t);
        assert forall|j: int| last_slash(s) < j < s.len() implies s[j] != '/' by {
            if j < s.len() - 1 {
                assert(s[j] == t[j]);
            }
        }
    }
}

/// A directory part followed by a name without `/`: the last `/` is the
/// directory part's last character.
proof fn lemma_split(d: Seq<char>, g: Seq<char>)
    requires
        d.len() == 0 || d.last() == '/',
        forall|j: int| 0 <= j < g.len() ==> #[trigger] g[j] != '/',
    ensures
        last_slash(d + g) == d.len() - 1,
        dir_part(d + g) == d,
        after_last_slash(d + g) == g,
    decreases g.len(),
{
    if g.len() == 0 {
        assert(d + g =~= d);
        if d.len() > 0 {
            assert(d[d.len() - 1] == d.last());
        }
    } else {
        let h = g.drop_last();
        assert forall|j: int| 0 <= j < h.len() implies #[trigger] h[j] != '/' by {
            assert(h[j] == g[j]);
        }
        lemma_split(d, h);
        assert((d + g).drop_last() =~= d + h);
        assert((d + g).last() == g[g.len() - 1]);
    }
    assert((d + g).take(d.len() as int) =~= d);
    assert((d + g).subrange(d.len() as int, (d + g).len() as int) =~= g);
}

/// A name of plain characters, at least two long and not `..`, is plain.
proof fn lemma_plain_of_chars(s: Seq<char>)
    requires
        forall|j: int| 0 <= j < s.len() ==> plain_char(#[trigger] s[j]),
        s.len() >= 2,
        s != seq!['.', '.'],
    ensures
        plain_name(s),
{
    assert(s != seq!['.']) by {
        if s == seq!['.'] {
            assert(s.len() == 1);
        }
    }
    assert(!s.contains('/') && !s.contains('\\') && !s.contains(':')) by {
        if s.contains('/') || s.contains('\\') || s.contains(':') {
            let m = choose|m: int| 0 <= m < s.len() && (s[m] == '/' || s[m] == '\\' || s[m] == ':');
            assert(plain_char(s[m]));
        }
    }
}

/// The characters of a plain name are plain.
proof fn lemma_plain_chars(s: Seq<char>)
    requires
        plain_name(s),
    ensures
        forall|j: int| 0 <= j < s.len() ==> plain_char(#[trigger] s[j]),
{
    assert forall|j: int| 0 <= j < s.len() implies plain_char(#[trigger] s[j]) by {
        if s[j] == '/' {
            assert(s.contains('/'));
        }
        if s[j] == '\\' {
            assert(s.contains('\\'));
        }
        if s[j] == ':' {
            assert(s.contains(':'));
        }
    }
}

/// A clean file path is its directory part followed by its file name.
proof fn lemma_clean_split(p: Seq<char>)
    requires
        clean_file_path(p),
    ensures
        dir_part(p).len() == 0 || dir_part(p).last() == '/',
        p == dir_part(p) + after_last_slash(p),
{
    lemma_last_slash(p);
    assert(p =~= dir_part(p) + after_last_slash(p));
    if dir_part(p).len() > 0 {
        assert(dir_part(p).last() == p[last_slash(p)]);
    }
}

/// Changing the extension of a clean file path gives a clean file path in
/// the same directory.
proof fn lemma_with_ext_clean(p: Seq<char>, e: Seq<char>)
    requires
        clean_file_path(p),
        e.len() > 0,
        forall|j: int| 0 <= j < e.len() ==> plain_char(#[trigger] e[j]),
    ensures
        clean_file_path(with_ext(p, e)),
        dir_part(with_ext(p, e)) == dir_part(p),
{
    lemma_clean_split(p);
    let d = dir_part(p);
    let f = after_last_slash(p);
    lemma_plain_chars(f);
    let stem = file_stem(f);
    lemma_last_dot_range(f);
    assert(1 <= stem.len() <= f.len());
    let g = stem + seq!['.'] + e;
    assert forall|j: int| 0 <= j < g.len() implies plain_char(#[trigger] g[j]) by {
        if j < stem.len() {
            assert(g[j] == stem[j]);
            assert(stem[j] == f[j]);
        } else if j > stem.len() {
            assert(g[j] == e[j - stem.len() - 1]);
        }
    }
    assert(g[0] == stem[0]);
    assert(g != seq!['.', '.']) by {
        if g == seq!['.', '.'] {
            assert(g.len() >= 3);
        }
    }
    lemma_plain_of_chars(g);
    assert(with_ext(p, e) =~= d + g);
    lemma_split(d, g);
}

/// The partial of a clean file path: its parent joined with `_` and its
/// file name.
fn partial_candidate(q: &str) -> (r: String)
    ensures
        clean_file_path(q@) ==> is_partial_of(r@, q@),
{
    let parent = match path_parent(q) {
        Some(d) => d,
        None => String::new(),
    };
    let name = match path_file_name(q) {
        Some(f) => f,
        None => String::from_str(".."),
    };
    let mut under = String::from_str("_");
    under.append(name.as_str());
    proof {
        reveal_strlit("_");
        if clean_file_path(q@) {
            let d = dir_part(q@);
            let f = after_last_slash(q@);
            assert(under@ =~= seq!['_'] + f);
            lemma_plain_chars(f);
            assert forall|j: int| 0 <= j < under@.len() implies plain_char(#[trigger] under@[j]) by {
                if j > 0 {
                    assert(under@[j] == f[j - 1]);
                }
            }
            assert(under@[0] == '_');
            lemma_plain_of_chars(under@);
            if d.len() >= 2 {
                assert(d.drop_last().push('/') =~= d);
            }
        }
    }
    let r = path_join(parent.as_str(), under.as_str());
    proof {
        if clean_file_path(q@) {
            let d = dir_part(q@);
            let f = after_last_slash(q@);
            if d.len() == 0 {
                assert(r@ =~= partial_text(q@, '/'));
                assert(separator('/'));
            } else if d.len() == 1 {
                assert(r@ =~= partial_text(q@, '/'));
                assert(separator('/'));
            } else {
                let sep = choose|sep: char| separator(sep) && r@ == parent@.push(sep) + under@;
                assert(r@ =~= partial_text(q@, sep));
            }
        }
    }
    r
}

/// The candidate files for a path and one extension: the file itself and
/// its partial, the partial first where `partial_first`.
fn with_ext_pair(path: &str, ext: &str, partial_first: bool) -> (r: (String, String))
    requires
        ext@.len() > 0,
        forall|j: int| 0 <= j < ext@.len() ==> plain_char(#[trigger] ext@[j]),
    ensures
        clean_file_path(path@) && partial_first ==> is_partial_of(r.0@, with_ext(path@, ext@))
            && r.1@ == with_ext(path@, ext@),
        clean_file_path(path@) && !partial_first ==> r.0@ == with_ext(path@, ext@)
            && is_partial_of(r.1@, with_ext(path@, ext@)),
{
    let q = path_with_extension(path, ext);
    let partial = partial_candidate(q.as_str());
    proof {
        if clean_file_path(path@) {
            lemma_with_ext_clean(path@, ext@);
        }
    }
    if partial_first {
        (partial, q)
    } else {
        (q, partial)
    }
}


/// The files an import of `path` may load, in the three groups of
/// [`candidate_groups`]: the import-only files (none unless `for_import`),
/// the Sass files, then the CSS files. For a clean file path each text is
/// the candidate's path, or its partial where the candidate says so.
pub fn import_candidates(path: &str, for_import: bool) -> (r: (
    Vec<String>,
    Vec<String>,
    Vec<String>,
))
    ensures
        r.0@.len() == (if for_import {
            4int
        } else {
            0int
        }),
        r.1@.len() == 4,
        r.2@.len() == (if for_import {
            4int
        } else {
            2int
        }),
        clean_file_path(path@) ==> names_candidates(
            texts(r.0@),
            candidate_groups(path@, for_import).0,
        ),
        clean_file_path(path@) ==> names_candidates(
            texts(r.1@),
            candidate_groups(path@, for_import).1,
        ),
        clean_file_path(path@) ==> names_candidates(
            texts(r.2@),
            candidate_groups(path@, for_import).2,
        ),
{
    proof {
        reveal_strlit("import.sass");
        reveal_strlit("import.scss");
        reveal_strlit("import.css");
        reveal_strlit("sass");
        reveal_strlit("scss");
        reveal_strlit("css");
    }
    let mut imports: Vec<String> = Vec::new();
    if for_import {
        let (a, b) = with_ext_pair(path, "import.sass", true);
        let (c, d) = with_ext_pair(path, "import.scss", true);
        imports.push(a);
        imports.push(b);
        imports.push(c);
        imports.push(d);
    }
    let mut regular: Vec<String> = Vec::new();
    let (a, b) = with_ext_pair(path, "sass", true);
    let (c, d) = with_ext_pair(path, "scss", true);
    regular.push(a);
    regular.push(b);
    regular.push(c);
    regular.push(d);
    let mut css: Vec<String> = Vec::new();
    if for_import {
        let (a, b) = with_ext_pair(path, "import.css", false);
        css.push(a);
        css.push(b);
    }
    let (e, f) = with_ext_pair(path, "css", false);
    css.push(e);
    css.push(f);
    proof {
        if clean_file_path(path@) {
            let g = candidate_groups(path@, for_import);
            assert forall|k: int| 0 <= k < texts(regular@).len() implies if g.1[k].1 {
                is_partial_of(#[trigger] texts(regular@)[k], g.1[k].0)
            } else {
                texts(regular@)[k] == g.1[k].0
            } by {
                assert(texts(regular@)[k] == regular@[k]@);
            }
            assert forall|k: int| 0 <= k < texts(imports@).len() implies if g.0[k].1 {
                is_partial_of(#[trigger] texts(imports@)[k], g.0[k].0)
            } else {
                texts(imports@)[k] == g.0[k].0
            } by {
                assert(texts(imports@)[k] == imports@[k]@);
            }
            assert forall|k: int| 0 <= k < texts(css@).len() implies if g.2[k].1 {
                is_partial_of(#[trigger] texts(css@)[k], g.2[k].0)
            } else {
                texts(css@)[k] == g.2[k].0
            } by {
                assert(texts(css@)[k] == css@[k]@);
                if for_import {
                    assert(g.2 =~= seq![(with_ext(path@, "import.css"@), false), (with_ext(path@, "import.css"@), true), (with_ext(path@, "css"@), false), (with_ext(path@, "css"@), true)]);
                }
            }
        }
    }
    (imports, regular, css)
}


/// The extension of a file name that names its syntax (`scss`, `sass` or
/// `css`, case counting), where the file name has one.
pub open spec fn explicit_ext(p: Seq<char>) -> Option<Seq<char>> {
    let f = after_last_slash(p);
    let e = after_last_dot(f);
    if last_dot(f) > 0 && (e == "scss"@ || e == "sass"@ || e == "css"@) {
        Some(e)
    } else {
        None
    }
}

/// The candidates of an import of `p`, whose extension `e` names its
/// syntax, in the three groups of [`candidate_groups`]: for CSS, the
/// import-only file (for `@import`) and then `p`, each before its partial;
/// otherwise the import-only file (for `@import`) and then `p`, each after
/// its partial.
pub open spec fn explicit_groups(p: Seq<char>, e: Seq<char>, for_import: bool) -> (
    Seq<(Seq<char>, bool)>,
    Seq<(Seq<char>, bool)>,
    Seq<(Seq<char>, bool)>,
) {
    if e == "css"@ {
        (
            Seq::empty(),
            Seq::empty(),
            if for_import {
                css_pair(p, "import.css"@) + seq![(p, false), (p, true)]
            } else {
                seq![(p, false), (p, true)]
            },
        )
    } else {
        let ie = if e == "scss"@ {
            "import.scss"@
        } else {
            "import.sass"@
        };
        (
            if for_import {
                seq![(with_ext(p, ie), true), (with_ext(p, ie), false)]
            } else {
                Seq::empty()
            },
            seq![(p, true), (p, false)],
            Seq::empty(),
        )
    }
}

/// Whether two texts are the same.
fn same_text(a: &str, b: &str) -> (r: bool)
    ensures
        r == (a@ == b@),
{
    let n = a.unicode_len();
    if n != b.unicode_len() {
        return false;
    }
    let mut i: usize = 0;
    while i < n
        invariant
            i <= n,
            n == a@.len(),
            n == b@.len(),
            forall|k: int| 0 <= k < i ==> a@[k] == b@[k],
        decreases n - i,
    {
        if a.get_char(i) != b.get_char(i) {
            return false;
        }
        i = i + 1;
    }
    assert(a@ =~= b@);
    true
}

/// A clean file path is read at `/` alone.
proof fn lemma_clean_slash_path(p: Seq<char>)
    requires
        clean_file_path(p),
    ensures
        slash_path(p),
{
    lemma_clean_split(p);
    let d = dir_part(p);
    let f = after_last_slash(p);
    lemma_plain_chars(f);
    assert forall|m: int| 0 <= m < p.len() implies p[m] != '\\' && p[m] != ':' by {
        if m < d.len() {
            assert(p[m] == d[m]);
            if d.len() >= 2 {
                if p[m] == '\\' {
                    assert(d.contains('\\'));
                }
                if p[m] == ':' {
                    assert(d.contains(':'));
                }
            } else if d.len() == 1 {
                assert(d[0] == '/');
            }
        } else {
            assert(p[m] == f[m - d.len()]);
        }
    }
    if p.len() >= 2 && p[0] == '/' && p[1] == '/' {
        if d.len() >= 2 {
            assert(d[1] == '/' && d[0] == '/');
        } else if d.len() == 1 {
            assert(p[1] == f[0]);
        } else {
            assert(p[0] == f[0]);
        }
    }
}

/// The candidates of an import whose file name ends in `.scss`, `.sass`
/// or `.css`, in the three groups of [`candidate_groups`] (see
/// [`explicit_groups`]); `None` for another path. For a clean file path
/// the extension is that of its file name.
pub fn explicit_candidates(path: &str, for_import: bool) -> (r: Option<
    (Vec<String>, Vec<String>, Vec<String>),
>)
    ensures
        clean_file_path(path@) ==> (r is Some <==> explicit_ext(path@) is Some),
        clean_file_path(path@) && r is Some ==> names_candidates(
            texts(r.unwrap().0@),
            explicit_groups(path@, explicit_ext(path@).unwrap(), for_import).0,
        ),
        clean_file_path(path@) && r is Some ==> names_candidates(
            texts(r.unwrap().1@),
            explicit_groups(path@, explicit_ext(path@).unwrap(), for_import).1,
        ),
        clean_file_path(path@) && r is Some ==> names_candidates(
            texts(r.unwrap().2@),
            explicit_groups(path@, explicit_ext(path@).unwrap(), for_import).2,
        ),
{
    proof {
        reveal_strlit("import.sass");
        reveal_strlit("import.scss");
        reveal_strlit("import.css");
        if clean_file_path(path@) {
            lemma_clean_slash_path(path@);
            lemma_plain_chars(after_last_slash(path@));
        }
    }
    let ext = match path_extension(path) {
        Some(e) => e,
        None => {
            return None;
        },
    };
    let is_css = same_text(ext.as_str(), "css");
    let is_scss = same_text(ext.as_str(), "scss");
    let is_sass = same_text(ext.as_str(), "sass");
    proof {
        if clean_file_path(path@) {
            let f = after_last_slash(path@);
            if last_dot(f) <= 0 {
                assert(false);
            }
        }
    }
    if !(is_css || is_scss || is_sass) {
        return None;
    }
    let mut imports: Vec<String> = Vec::new();
    let mut regular: Vec<String> = Vec::new();
    let mut css: Vec<String> = Vec::new();
    if is_css {
        if for_import {
            let (a, b) = with_ext_pair(path, "import.css", false);
            css.push(a);
            css.push(b);
        }
        let partial = partial_candidate(path);
        css.push(String::from_str(path));
        css.push(partial);
    } else {
        if for_import {
            let import_ext = if is_scss {
                "import.scss"
            } else {
                "import.sass"
            };
            let (a, b) = with_ext_pair(path, import_ext, true);
            imports.push(a);
            imports.push(b);
        }
        let partial = partial_candidate(path);
        regular.push(partial);
        regular.push(String::from_str(path));
    }
    proof {
        if clean_file_path(path@) {
            let g = explicit_groups(path@, explicit_ext(path@).unwrap(), for_import);
            assert forall|k: int| 0 <= k < texts(regular@).len() implies if g.1[k].1 {
                is_partial_of(#[trigger] texts(regular@)[k], g.1[k].0)
            } else {
                texts(regular@)[k] == g.1[k].0
            } by {
                assert(texts(regular@)[k] == regular@[k]@);
            }
            assert forall|k: int| 0 <= k < texts(imports@).len() implies if g.0[k].1 {
                is_partial_of(#[trigger] texts(imports@)[k], g.0[k].0)
            } else {
                texts(imports@)[k] == g.0[k].0
            } by {
                assert(texts(imports@)[k] == imports@[k]@);
            }
            assert forall|k: int| 0 <= k < texts(css@).len() implies if g.2[k].1 {
                is_partial_of(#[trigger] texts(css@)[k], g.2[k].0)
            } else {
                texts(css@)[k] == g.2[k].0
            } by {
                assert(texts(css@)[k] == css@[k]@);
            }
        }
    }
    Some((imports, regular, css))
}

} // verus!
