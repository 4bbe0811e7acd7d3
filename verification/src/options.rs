use rustc_hash::FxHashSet;
use vstd::prelude::*;
use vstd::string::StringExecFns;

use crate::fs::{name_set_insert, name_set_new, names_in};
use crate::path::{plain_name, slash_path};

verus! {

/// The syntax of a stylesheet, for sources other than the file system.
#[non_exhaustive]
#[derive(Clone, Copy, Debug, PartialEq, Eq, Structural, Hash)]
pub enum InputSyntax {
    /// The CSS-superset SCSS syntax.
    Scss,
    /// The whitespace-sensitive indented syntax.
    Sass,
    /// The plain CSS syntax, which disallows special Sass features.
    Css,
}

/// How the output is laid out.
#[non_exhaustive]
#[derive(Clone, Copy, Debug, PartialEq, Eq, Structural, Hash)]
pub enum OutputStyle {
    /// Each selector and declaration on its own line.
    Expanded,
    /// As few characters as possible, on a single line.
    Compressed,
}

/// `c` in ASCII lower case.
pub open spec fn ascii_lower(c: char) -> char {
    if 'A' <= c <= 'Z' {
        ((c as u32) + 32) as char
    } else {
        c
    }
}

/// `s` in ASCII lower case.
pub open spec fn ascii_lowercase(s: Seq<char>) -> Seq<char> {
    s.map_values(|c: char| ascii_lower(c))
}

/// The syntax that a file extension names, ignoring ASCII case: `css`
/// and `sass` name theirs, anything else (or no extension) names SCSS.
pub open spec fn syntax_for_ext(ext: Option<Seq<char>>) -> InputSyntax {
    match ext {
        Some(e) => if ascii_lowercase(e) == seq!['c', 's', 's'] {
            InputSyntax::Css
        } else if ascii_lowercase(e) == seq!['s', 'a', 's', 's'] {
            InputSyntax::Sass
        } else {
            InputSyntax::Scss
        },
        None => InputSyntax::Scss,
    }
}

/// Whether `s` in ASCII lower case is `lower`.
fn ascii_lowercase_is(s: &str, lower: &str) -> (r: bool)
    ensures
        r == (ascii_lowercase(s@) == lower@),
{
    let n = s.unicode_len();
    if n != lower.unicode_len() {
        proof {
            assert(ascii_lowercase(s@).len() == s@.len());
        }
        return false;
    }
    let mut i: usize = 0;
    while i < n
        invariant
            n == s@.len(),
            n == lower@.len(),
            i <= n,
            forall|k: int| 0 <= k < i ==> ascii_lower(#[trigger] s@[k]) == lower@[k],
        decreases n - i,
    {
        let c = s.get_char(i);
        let d = lower.get_char(i);
        let lowered: u32 = if 'A' <= c && c <= 'Z' {
            (c as u32) + 32
        } else {
            c as u32
        };
        if lowered != d as u32 {
            proof {
                assert(ascii_lowercase(s@)[i as int] != lower@[i as int]);
            }
            return false;
        }
        i = i + 1;
    }
    proof {
        assert(ascii_lowercase(s@) =~= lower@);
    }
    true
}

impl InputSyntax {
    /// The syntax that a file extension names: `css` and `sass` (in any
    /// ASCII case) name theirs; any other extension, or none, names SCSS.
    pub fn for_extension(ext: Option<&str>) -> (r: Self)
        ensures
            r == syntax_for_ext(
                match ext {
                    Some(e) => Some(e@),
                    None => None,
                },
            ),
    {
        proof {
            reveal_strlit("css");
            reveal_strlit("sass");
            assert("css"@ =~= seq!['c', 's', 's']);
            assert("sass"@ =~= seq!['s', 'a', 's', 's']);
        }
        match ext {
            Some(e) => if ascii_lowercase_is(e, "css") {
                InputSyntax::Css
            } else if ascii_lowercase_is(e, "sass") {
                InputSyntax::Sass
            } else {
                InputSyntax::Scss
            },
            None => InputSyntax::Scss,
        }
    }

    /// The syntax that the extension of `path` names, as
    /// [`Self::for_extension`] reads it. Which text is the extension
    /// depends on the platform's path syntax; whatever it is, it holds no
    /// `.` and follows a `.` in the path, so a path without a `.` is SCSS.
    pub fn for_path(path: &str) -> (r: Self)
        ensures
            exists|e: Option<Seq<char>>|
                extension_candidate(path@, e) && r == #[trigger] syntax_for_ext(e),
            !path@.contains('.') ==> r == InputSyntax::Scss,
            slash_path(path@) && dotted_file_name(after_last_slash(path@)) ==> r == syntax_for_ext(
                Some(after_last_dot(after_last_slash(path@))),
            ),
    {
        let ext = path_extension(path);
        match ext {
            Some(e) => {
                let r = Self::for_extension(Some(e.as_str()));
                proof {
                    assert(extension_candidate(path@, Some(e@)));
                    let i = choose|i: int|
                        0 <= i && i + 1 + e@.len() <= path@.len() && path@[i] == '.'
                            && #[trigger] path@.subrange(i + 1, i + 1 + e@.len()) == e@;
                    assert(path@[i] == '.');
                    assert(path@.contains('.'));
                    assert(r == syntax_for_ext(Some(e@)));
                }
                r
            },
            None => {
                let r = Self::for_extension(None);
                proof {
                    assert(extension_candidate(path@, None::<Seq<char>>));
                    assert(r == syntax_for_ext(None::<Seq<char>>));
                }
                r
            },
        }
    }
}

/// The position of the last `.` in `s`, or -1 when it has none.
pub open spec fn last_dot(s: Seq<char>) -> int
    decreases s.len(),
{
    if s.len() == 0 {
        -1
    } else if s.last() == '.' {
        s.len() - 1
    } else {
        last_dot(s.drop_last())
    }
}

/// The text after the last `.` of `s`.
pub open spec fn after_last_dot(s: Seq<char>) -> Seq<char> {
    s.subrange(last_dot(s) + 1, s.len() as int)
}

/// The position of the last `/` in `s`, or -1 when it has none.
pub open spec fn last_slash(s: Seq<char>) -> int
    decreases s.len(),
{
    if s.len() == 0 {
        -1
    } else if s.last() == '/' {
        s.len() - 1
    } else {
        last_slash(s.drop_last())
    }
}

/// The text after the last `/` of `s`: all of it when it has none.
pub open spec fn after_last_slash(s: Seq<char>) -> Seq<char> {
    s.subrange(last_slash(s) + 1, s.len() as int)
}

/// A file name that every platform reads as one with an extension: no
/// `/`, `\\` or `:`, not `..`, and a `.` that is not its first character
/// alone.
pub open spec fn dotted_file_name(p: Seq<char>) -> bool {
    &&& !p.contains('/')
    &&& !p.contains('\\')
    &&& !p.contains(':')
    &&& p != seq!['.', '.']
    &&& last_dot(p) > 0
}

/// `e` may be the extension of `path`, whatever the platform's path
/// syntax: there is none, or it is a text without `.` that follows a `.`
/// in the path.
pub open spec fn extension_candidate(path: Seq<char>, e: Option<Seq<char>>) -> bool {
    match e {
        None => true,
        Some(x) => !x.contains('.') && exists|i: int|
            0 <= i && i + 1 + x.len() <= path.len() && path[i] == '.'
                && #[trigger] path.subrange(i + 1, i + 1 + x.len()) == x,
    }
}

/// `Path::extension`, as text. As std documents it, the extension is the
/// part of the file name (a component of the path) after its final `.`:
/// it holds no `.` and follows a `.` in the path; and for a path that every
/// platform reads as a single file name with a `.` other than a leading
/// one, it is the text after the last `.`. Which component is the file
/// name of other paths depends on the platform's path syntax, so nothing
/// more is stated of them; but where every platform reads the text after
/// the last `/` as the file name, one without a `.` past its first
/// character has no extension.
#[verifier::external_body]
pub(crate) fn path_extension(path: &str) -> (r: Option<String>)
    ensures
        extension_candidate(
            path@,
            match r {
                Some(e) => Some(e@),
                None => None,
            },
        ),
        slash_path(path@) && dotted_file_name(after_last_slash(path@)) ==> r is Some
            && r.unwrap()@ == after_last_dot(after_last_slash(path@)),
        slash_path(path@) && plain_name(after_last_slash(path@)) && last_dot(after_last_slash(path@))
            <= 0 ==> r is None,
{
    std::path::Path::new(path).extension().and_then(|e| e.to_str()).map(String::from)
}

/// Settings of a compilation.
#[derive(Debug)]
pub struct Options {
    pub style: OutputStyle,
    pub load_paths: Vec<String>,
    pub allows_charset: bool,
    pub unicode_error_messages: bool,
    pub quiet: bool,
    pub input_syntax: Option<InputSyntax>,
    pub source_map: bool,
    /// The deprecations, by their IDs, that give no warning.
    pub silence_deprecations: FxHashSet<String>,
    /// The deprecations, by their IDs, that are errors.
    pub fatal_deprecations: FxHashSet<String>,
    /// The deprecations, by their IDs, that warn before they are on by
    /// default.
    pub future_deprecations: FxHashSet<String>,
}

impl Default for Options {
    /// Expanded output, no load paths, `@charset` allowed, Unicode error
    /// messages, warnings shown, the syntax taken from the file, no source
    /// map.
    fn default() -> (o: Self)
        ensures
            o.style == OutputStyle::Expanded,
            o.load_paths@ == Seq::<String>::empty(),
            o.allows_charset,
            o.unicode_error_messages,
            !o.quiet,
            o.input_syntax is None,
            !o.source_map,
            names_in(o.silence_deprecations) == Set::<Seq<char>>::empty(),
            names_in(o.fatal_deprecations) == Set::<Seq<char>>::empty(),
            names_in(o.future_deprecations) == Set::<Seq<char>>::empty(),
    {
        Options {
            style: OutputStyle::Expanded,
            load_paths: Vec::new(),
            allows_charset: true,
            unicode_error_messages: true,
            quiet: false,
            input_syntax: None,
            source_map: false,
            silence_deprecations: name_set_new(),
            fatal_deprecations: name_set_new(),
            future_deprecations: name_set_new(),
        }
    }
}

impl Options {
    /// Sets the output style.
    pub fn style(self, style: OutputStyle) -> (r: Self)
        ensures
            r == (Options { style, ..self }),
    {
        Options { style, ..self }
    }

    /// Sets whether warnings are silenced.
    pub fn quiet(self, quiet: bool) -> (r: Self)
        ensures
            r == (Options { quiet, ..self }),
    {
        Options { quiet, ..self }
    }

    /// Adds a path to look up imports in.
    pub fn load_path(self, path: &str) -> (r: Self)
        ensures
            r.load_paths@.len() == self.load_paths@.len() + 1,
            r.load_paths@.drop_last() == self.load_paths@,
            r.load_paths@.last()@ == path@,
            r == (Options { load_paths: r.load_paths, ..self }),
    {
        let mut o = self;
        o.load_paths.push(String::from_str(path));
        proof {
            assert(o.load_paths@.drop_last() =~= self.load_paths@);
        }
        o
    }

    /// Adds paths to look up imports in, in order.
    pub fn load_paths(self, paths: &[&str]) -> (r: Self)
        ensures
            r.load_paths@.len() == self.load_paths@.len() + paths@.len(),
            r.load_paths@.take(self.load_paths@.len() as int) == self.load_paths@,
            forall|k: int|
                0 <= k < paths@.len() ==> #[trigger] r.load_paths@[self.load_paths@.len() + k]@
                    == paths@[k]@,
            r == (Options { load_paths: r.load_paths, ..self }),
    {
        let mut o = self;
        let mut i: usize = 0;
        while i < paths.len()
            invariant
                i <= paths@.len(),
                o.load_paths@.len() == self.load_paths@.len() + i,
                o.load_paths@.take(self.load_paths@.len() as int) == self.load_paths@,
                forall|k: int|
                    0 <= k < i ==> #[trigger] o.load_paths@[self.load_paths@.len() + k]@
                        == paths@[k]@,
                o == (Options { load_paths: o.load_paths, ..self }),
            decreases paths@.len() - i,
        {
            let ghost before = o.load_paths@;
            o.load_paths.push(String::from_str(paths[i]));
            proof {
                assert(o.load_paths@.take(self.load_paths@.len() as int) =~= before.take(
                    self.load_paths@.len() as int,
                ));
                assert forall|k: int| 0 <= k < i + 1 implies #[trigger] o.load_paths@[self.load_paths@.len()
                    + k]@ == paths@[k]@ by {
                    if k < i {
                        assert(o.load_paths@[self.load_paths@.len() + k] == before[self.load_paths@.len()
                            + k]);
                    }
                }
            }
            i = i + 1;
        }
        o
    }

    /// Sets whether `@charset` may be emitted.
    pub fn allows_charset(self, allows_charset: bool) -> (r: Self)
        ensures
            r == (Options { allows_charset, ..self }),
    {
        Options { allows_charset, ..self }
    }

    /// Sets whether error messages may use Unicode characters.
    pub fn unicode_error_messages(self, unicode_error_messages: bool) -> (r: Self)
        ensures
            r == (Options { unicode_error_messages, ..self }),
    {
        Options { unicode_error_messages, ..self }
    }

    /// Sets the syntax of the input, in place of the one the file name
    /// gives.
    pub fn input_syntax(self, syntax: InputSyntax) -> (r: Self)
        ensures
            r == (Options { input_syntax: Some(syntax), ..self }),
    {
        Options { input_syntax: Some(syntax), ..self }
    }

    /// Sets whether a source map is produced.
    pub fn source_map(self, source_map: bool) -> (r: Self)
        ensures
            r == (Options { source_map, ..self }),
    {
        Options { source_map, ..self }
    }

    /// Gives no warning for the deprecation with this ID.
    pub fn silence_deprecation(self, deprecation: &str) -> (r: Self)
        ensures
            names_in(r.silence_deprecations) == names_in(self.silence_deprecations).insert(
                deprecation@,
            ),
            r == (Options { silence_deprecations: r.silence_deprecations, ..self }),
    {
        let mut o = self;
        name_set_insert(&mut o.silence_deprecations, String::from_str(deprecation));
        o
    }

    /// Makes the deprecation with this ID an error.
    pub fn fatal_deprecation(self, deprecation: &str) -> (r: Self)
        ensures
            names_in(r.fatal_deprecations) == names_in(self.fatal_deprecations).insert(
                deprecation@,
            ),
            r == (Options { fatal_deprecations: r.fatal_deprecations, ..self }),
    {
        let mut o = self;
        name_set_insert(&mut o.fatal_deprecations, String::from_str(deprecation));
        o
    }

    /// Warns for the deprecation with this ID before it is on by default.
    pub fn future_deprecation(self, deprecation: &str) -> (r: Self)
        ensures
            names_in(r.future_deprecations) == names_in(self.future_deprecations).insert(
                deprecation@,
            ),
            r == (Options { future_deprecations: r.future_deprecations, ..self }),
    {
        let mut o = self;
        name_set_insert(&mut o.future_deprecations, String::from_str(deprecation));
        o
    }

    /// Whether the output is compressed.
    pub fn is_compressed(&self) -> (r: bool)
        ensures
            r == (self.style == OutputStyle::Compressed),
    {
        match self.style {
            OutputStyle::Compressed => true,
            OutputStyle::Expanded => false,
        }
    }
}

} // verus!
