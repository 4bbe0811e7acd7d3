use vstd::prelude::*;

verus! {

/// A component of a file system path.
#[derive(Debug)]
pub enum PathComponent {
    /// A drive or share prefix (Windows only).
    Prefix(String),
    /// The root `/`.
    RootDir,
    /// `.`
    CurDir,
    /// `..`
    ParentDir,
    /// A plain name.
    Normal(String),
}

/// What a path component holds, its text taken as characters.
pub enum ComponentView {
    Prefix(Seq<char>),
    RootDir,
    CurDir,
    ParentDir,
    Normal(Seq<char>),
}

impl View for PathComponent {
    type V = ComponentView;

    open spec fn view(&self) -> ComponentView {
        match self {
            PathComponent::Prefix(p) => ComponentView::Prefix(p@),
            PathComponent::RootDir => ComponentView::RootDir,
            PathComponent::CurDir => ComponentView::CurDir,
            PathComponent::ParentDir => ComponentView::ParentDir,
            PathComponent::Normal(n) => ComponentView::Normal(n@),
        }
    }
}

/// The views of a sequence of components.
pub open spec fn comps_view(cs: Seq<PathComponent>) -> Seq<ComponentView> {
    cs.map_values(|c: PathComponent| c@)
}

/// The components of a path after `.` is dropped and each `..` cancels
/// the plain name before it; a `..` right after the root or a prefix is
/// dropped, and one with no plain name before it is kept.
pub open spec fn normalized(cs: Seq<ComponentView>) -> Seq<ComponentView>
    decreases cs.len(),
{
    if cs.len() == 0 {
        Seq::empty()
    } else {
        let r = normalized(cs.drop_last());
        match cs.last() {
            ComponentView::ParentDir => if r.len() > 0 && r.last() is Normal {
                r.drop_last()
            } else if r.len() > 0 && (r.last() is RootDir || r.last() is Prefix) {
                r
            } else {
                r.push(ComponentView::ParentDir)
            },
            ComponentView::CurDir => r,
            c => r.push(c),
        }
    }
}

fn copy_component(c: &PathComponent) -> (r: PathComponent)
    ensures
        r@ == c@,
{
    match c {
        PathComponent::Prefix(p) => PathComponent::Prefix(p.clone()),
        PathComponent::RootDir => PathComponent::RootDir,
        PathComponent::CurDir => PathComponent::CurDir,
        PathComponent::ParentDir => PathComponent::ParentDir,
        PathComponent::Normal(n) => PathComponent::Normal(n.clone()),
    }
}

/// Drops `.` components and resolves each `..` against the plain name
/// before it, without touching the file system.
pub fn normalize_components(cs: &Vec<PathComponent>) -> (r: Vec<PathComponent>)
    ensures
        comps_view(r@) == normalized(comps_view(cs@)),
{
    let ghost v = comps_view(cs@);
    let mut result: Vec<PathComponent> = Vec::new();
    let mut i: usize = 0;
    proof {
        assert(comps_view(result@) =~= Seq::<ComponentView>::empty());
        assert(v.take(0) =~= Seq::<ComponentView>::empty());
    }
    while i < cs.len()
        invariant
            i <= cs.len(),
            v == comps_view(cs@),
            comps_view(result@) == normalized(v.take(i as int)),
        decreases cs.len() - i,
    {
        proof {
            assert(v.take(i + 1).drop_last() =~= v.take(i as int));
            assert(v.take(i + 1).last() == cs@[i as int]@);
        }
        let ghost before = result@;
        match &cs[i] {
            PathComponent::ParentDir => {
                let n = result.len();
                if n > 0 && matches!(result[n - 1], PathComponent::Normal(_)) {
                    result.pop();
                    proof {
                        assert(comps_view(result@) =~= comps_view(before).drop_last());
                    }
                } else if n > 0 && (matches!(result[n - 1], PathComponent::RootDir) || matches!(
                    result[n - 1],
                    PathComponent::Prefix(_)
                )) {
                } else {
                    result.push(PathComponent::ParentDir);
                    proof {
                        assert(comps_view(result@) =~= comps_view(before).push(
                            ComponentView::ParentDir,
                        ));
                    }
                }
            },
            PathComponent::CurDir => {},
            c => {
                let d = copy_component(c);
                result.push(d);
                proof {
                    assert(comps_view(result@) =~= comps_view(before).push(c@));
                }
            },
        }
        i = i + 1;
    }
    proof {
        assert(v.take(i as int) =~= v);
    }
    result
}

/// A path that every platform splits at `/` alone: no `\\`, no `:`, and
/// it does not begin with two `/`.
pub open spec fn slash_path(p: Seq<char>) -> bool {
    &&& !p.contains('\\')
    &&& !p.contains(':')
    &&& !(p.len() >= 2 && p[0] == '/' && p[1] == '/')
}

/// A name that every platform reads as one plain path component: not
/// empty, not `.` or `..`, and without `/`, `\\` or `:`.
pub open spec fn plain_name(s: Seq<char>) -> bool {
    &&& s.len() > 0
    &&& s != seq!['.']
    &&& s != seq!['.', '.']
    &&& !s.contains('/')
    &&& !s.contains('\\')
    &&& !s.contains(':')
}

/// A character that some platform uses as its path separator.
pub open spec fn separator(c: char) -> bool {
    c == '/' || c == '\\'
}

/// A character that no platform reads as part of a path's syntax.
pub open spec fn plain_char(c: char) -> bool {
    c != '/' && c != '\\' && c != ':'
}

/// The pieces of `p` between its `/` characters, in order; empty pieces
/// count, so there is always one piece more than there are `/`.
pub open spec fn slash_parts(p: Seq<char>) -> Seq<Seq<char>>
    decreases p.len(),
{
    if p.len() == 0 {
        seq![Seq::empty()]
    } else {
        let r = slash_parts(p.drop_last());
        if p.last() == '/' {
            r.push(Seq::empty())
        } else {
            r.update(r.len() - 1, r.last().push(p.last()))
        }
    }
}

/// The components that the pieces of a path name: an empty piece names
/// none, `.` names the current directory as the first piece and none
/// elsewhere, `..` names the parent, and any other piece a plain name.
pub open spec fn part_components(parts: Seq<Seq<char>>) -> Seq<ComponentView>
    decreases parts.len(),
{
    if parts.len() == 0 {
        Seq::empty()
    } else {
        let r = part_components(parts.drop_last());
        let s = parts.last();
        if s.len() == 0 {
            r
        } else if s == seq!['.'] {
            if parts.len() == 1 {
                r.push(ComponentView::CurDir)
            } else {
                r
            }
        } else if s == seq!['.', '.'] {
            r.push(ComponentView::ParentDir)
        } else {
            r.push(ComponentView::Normal(s))
        }
    }
}

/// The components of a path read with `/` as its only separator: the
/// root first where it begins with `/`, then what its pieces name.
pub open spec fn slash_components(p: Seq<char>) -> Seq<ComponentView> {
    if p.len() > 0 && p[0] == '/' {
        seq![ComponentView::RootDir] + part_components(slash_parts(p))
    } else {
        part_components(slash_parts(p))
    }
}

/// Components that every platform writes the same way, up to the
/// separator: no prefix, the root only first, and plain names.
pub open spec fn plain_components(cs: Seq<ComponentView>) -> bool {
    forall|k: int|
        0 <= k < cs.len() ==> match #[trigger] cs[k] {
            ComponentView::Prefix(_) => false,
            ComponentView::RootDir => k == 0,
            ComponentView::Normal(n) => plain_name(n),
            _ => true,
        }
}

/// The text of one component.
pub open spec fn comp_text(c: ComponentView) -> Seq<char> {
    match c {
        ComponentView::Prefix(p) => p,
        ComponentView::RootDir => Seq::empty(),
        ComponentView::CurDir => seq!['.'],
        ComponentView::ParentDir => seq!['.', '.'],
        ComponentView::Normal(n) => n,
    }
}

/// The texts of the components with `sep` between each two of them.
pub open spec fn joined(cs: Seq<ComponentView>, sep: char) -> Seq<char>
    decreases cs.len(),
{
    if cs.len() == 0 {
        Seq::empty()
    } else if cs.len() == 1 {
        comp_text(cs[0])
    } else {
        joined(cs.drop_last(), sep).push(sep) + comp_text(cs.last())
    }
}

/// The path that the components make with separator `sep`: a leading
/// root is the separator itself, and the rest follow joined by `sep`.
pub open spec fn components_text(cs: Seq<ComponentView>, sep: char) -> Seq<char> {
    if cs.len() > 0 && cs[0] is RootDir {
        seq![sep] + joined(cs.drop_first(), sep)
    } else {
        joined(cs, sep)
    }
}

/// `t` is the path that the components make with `/` or `\\` as separator.
pub open spec fn written_with_separator(t: Seq<char>, cs: Seq<ComponentView>) -> bool {
    exists|sep: char| separator(sep) && t == components_text(cs, sep)
}

/// `Path::components`: the components of `path` as this platform reads
/// them. Stated, as it holds on every platform: a path without `\\` or
/// `:` that does not begin with two `/` splits at `/` into a leading
/// root, a leading `.`, `..` and plain names, empty pieces and other `.`
/// pieces naming nothing. Nothing is stated of other paths: how they
/// split depends on the platform's path syntax.
#[verifier::external_body]
fn path_components(path: &str) -> (r: Vec<PathComponent>)
    ensures
        path@.len() == 0 ==> r@.len() == 0,
        plain_name(path@) ==> r@.len() == 1 && r@[0] is Normal && r@[0]->Normal_0@ == path@,
        slash_path(path@) ==> comps_view(r@) == slash_components(path@),
{
    std::path::Path::new(path).components().map(|c| match c {
        std::path::Component::Prefix(p) => PathComponent::Prefix(
            p.as_os_str().to_string_lossy().into_owned(),
        ),
        std::path::Component::RootDir => PathComponent::RootDir,
        std::path::Component::CurDir => PathComponent::CurDir,
        std::path::Component::ParentDir => PathComponent::ParentDir,
        std::path::Component::Normal(n) => PathComponent::Normal(n.to_string_lossy().into_owned()),
    }).collect()
}

/// The path collected from the components (`PathBuf: FromIterator`,
/// which pushes each in turn), as text. Stated, as it holds on every
/// platform: components without a prefix, with the root only first and
/// with plain names give their texts joined by the platform's separator,
/// `/` or `\\`, a leading root being that separator. Which of the two
/// separators it is depends on the platform and is not stated.
#[verifier::external_body]
fn path_from_components(cs: &Vec<PathComponent>) -> (r: String)
    ensures
        cs@.len() == 0 ==> r@.len() == 0,
        cs@.len() == 1 && cs@[0] is Normal && plain_name(cs@[0]->Normal_0@) ==> r@
            == cs@[0]->Normal_0@,
        plain_components(comps_view(cs@)) ==> written_with_separator(r@, comps_view(cs@)),
{
    let buf: std::path::PathBuf = cs.iter().map(|c| match c {
        PathComponent::Prefix(p) => p.as_str(),
        PathComponent::RootDir => std::path::MAIN_SEPARATOR_STR,
        PathComponent::CurDir => ".",
        PathComponent::ParentDir => "..",
        PathComponent::Normal(n) => n.as_str(),
    }).collect();
    buf.to_string_lossy().into_owned()
}

/// Each piece of `p` holds no `/`, and no `\\` or `:` where `p` holds
/// none; there is at least one piece.
pub proof fn lemma_slash_parts(p: Seq<char>)
    requires
        !p.contains('\\'),
        !p.contains(':'),
    ensures
        slash_parts(p).len() >= 1,
        forall|i: int, j: int|
            0 <= i < slash_parts(p).len() && 0 <= j < slash_parts(p)[i].len() ==> plain_char(
                #[trigger] slash_parts(p)[i][j],
            ),
    decreases p.len(),
{
    if p.len() > 0 {
        let q = p.drop_last();
        assert(!q.contains('\\')) by {
            if q.contains('\\') {
                let m = choose|m: int| 0 <= m < q.len() && q[m] == '\\';
                assert(p[m] == '\\');
            }
        }
        assert(!q.contains(':')) by {
            if q.contains(':') {
                let m = choose|m: int| 0 <= m < q.len() && q[m] == ':';
                assert(p[m] == ':');
            }
        }
        lemma_slash_parts(q);
        assert(p[p.len() - 1] == p.last());
        let r = slash_parts(q);
        let out = slash_parts(p);
        assert forall|i: int, j: int|
            0 <= i < out.len() && 0 <= j < out[i].len() implies plain_char(#[trigger] out[i][j]) by {
            if p.last() == '/' {
                assert(out[i] == if i < r.len() {
                    r[i]
                } else {
                    Seq::<char>::empty()
                });
            } else if i < r.len() - 1 {
                assert(out[i] == r[i]);
            } else {
                assert(out[i] == r.last().push(p.last()));
                if j < r.last().len() {
                    assert(out[i][j] == r[r.len() - 1][j]);
                }
            }
        }
    }
}

/// A piece with only plain characters that is not empty, `.` or `..` is
/// a plain name.
proof fn lemma_plain_piece(s: Seq<char>)
    requires
        forall|j: int| 0 <= j < s.len() ==> plain_char(#[trigger] s[j]),
        s.len() > 0,
        s != seq!['.'],
        s != seq!['.', '.'],
    ensures
        plain_name(s),
{
    assert(!s.contains('/') && !s.contains('\\') && !s.contains(':')) by {
        if s.contains('/') || s.contains('\\') || s.contains(':') {
            let m = choose|m: int| 0 <= m < s.len() && (s[m] == '/' || s[m] == '\\' || s[m] == ':');
            assert(plain_char(s[m]));
        }
    }
}

/// Pieces made of plain characters name plain components, none of them
/// the root.
proof fn lemma_part_components_plain(parts: Seq<Seq<char>>)
    requires
        forall|i: int, j: int|
            0 <= i < parts.len() && 0 <= j < parts[i].len() ==> plain_char(#[trigger] parts[i][j]),
    ensures
        plain_components(part_components(parts)),
        forall|k: int|
            0 <= k < part_components(parts).len() ==> !(#[trigger] part_components(parts)[k] is RootDir),
    decreases parts.len(),
{
    if parts.len() > 0 {
        let init = parts.drop_last();
        assert forall|i: int, j: int| 0 <= i < init.len() && 0 <= j < init[i].len() implies plain_char(
            #[trigger] init[i][j],
        ) by {
            assert(init[i] == parts[i]);
        }
        lemma_part_components_plain(init);
        let s = parts.last();
        assert forall|j: int| 0 <= j < s.len() implies plain_char(#[trigger] s[j]) by {
            assert(s[j] == parts[parts.len() - 1][j]);
        }
        if s.len() > 0 && s != seq!['.'] && s != seq!['.', '.'] {
            lemma_plain_piece(s);
        }
        let r = part_components(init);
        let out = part_components(parts);
        assert forall|k: int| 0 <= k < out.len() implies (match #[trigger] out[k] {
            ComponentView::Prefix(_) => false,
            ComponentView::RootDir => k == 0,
            ComponentView::Normal(n) => plain_name(n),
            _ => true,
        }) && !(out[k] is RootDir) by {
            if k < r.len() {
                assert(out[k] == r[k]);
            }
        }
    }
}

/// A path split at `/` alone has plain components.
pub proof fn lemma_slash_components_plain(p: Seq<char>)
    requires
        slash_path(p),
    ensures
        plain_components(slash_components(p)),
{
    lemma_slash_parts(p);
    lemma_part_components_plain(slash_parts(p));
    let pc = part_components(slash_parts(p));
    if p.len() > 0 && p[0] == '/' {
        let out = seq![ComponentView::RootDir] + pc;
        assert forall|k: int| 0 <= k < out.len() implies match #[trigger] out[k] {
            ComponentView::Prefix(_) => false,
            ComponentView::RootDir => k == 0,
            ComponentView::Normal(n) => plain_name(n),
            _ => true,
        } by {
            if k > 0 {
                assert(out[k] == pc[k - 1]);
            }
        }
    }
}

/// Normalizing keeps components plain.
pub proof fn lemma_normalized_plain(cs: Seq<ComponentView>)
    requires
        plain_components(cs),
    ensures
        plain_components(normalized(cs)),
    decreases cs.len(),
{
    if cs.len() > 0 {
        let init = cs.drop_last();
        assert forall|k: int| 0 <= k < init.len() implies match #[trigger] init[k] {
            ComponentView::Prefix(_) => false,
            ComponentView::RootDir => k == 0,
            ComponentView::Normal(n) => plain_name(n),
            _ => true,
        } by {
            assert(init[k] == cs[k]);
        }
        lemma_normalized_plain(init);
        let r = normalized(init);
        let out = normalized(cs);
        assert(cs[cs.len() - 1] == cs.last());
        if cs.last() is RootDir {
            assert(init.len() == 0);
        }
        assert forall|k: int| 0 <= k < out.len() implies match #[trigger] out[k] {
            ComponentView::Prefix(_) => false,
            ComponentView::RootDir => k == 0,
            ComponentView::Normal(n) => plain_name(n),
            _ => true,
        } by {
            if k < r.len() {
                assert(out[k] == r[k]);
            }
        }
    }
}

/// `path` with `.` dropped and each `..` resolved against the name before
/// it, as [`normalize_components`] does on the components of the path.
/// On every platform the empty path stays empty, a plain name comes back
/// unchanged, and a path without `\\` or `:` that does not begin with
/// two `/` gives the texts of its normalized `/`-separated components,
/// joined by the platform's separator (`/` or `\\`).
pub fn normalize_path(path: &str) -> (r: String)
    ensures
        path@.len() == 0 ==> r@.len() == 0,
        plain_name(path@) ==> r@ == path@,
        slash_path(path@) ==> written_with_separator(r@, normalized(slash_components(path@))),
{
    let cs = path_components(path);
    let normal = normalize_components(&cs);
    proof {
        if plain_name(path@) {
            assert(comps_view(cs@) =~= seq![cs@[0]@]);
            assert(seq![cs@[0]@].drop_last() =~= Seq::<ComponentView>::empty());
            assert(cs@[0]@ is Normal);
            assert(seq![cs@[0]@].last() == cs@[0]@);
            assert(normalized(Seq::<ComponentView>::empty()) =~= Seq::<ComponentView>::empty());
            assert(normalized(seq![cs@[0]@]) =~= Seq::<ComponentView>::empty().push(cs@[0]@));
            assert(normal@.len() == 1);
            assert(comps_view(normal@)[0] == normal@[0]@);
        }
        if slash_path(path@) {
            lemma_slash_components_plain(path@);
            lemma_normalized_plain(slash_components(path@));
        }
    }
    path_from_components(&normal)
}

/// Components in normal form: no `.`, and each `..` comes first or right
/// after another `..`.
pub open spec fn is_normal(cs: Seq<ComponentView>) -> bool {
    forall|k: int|
        0 <= k < cs.len() ==> !(#[trigger] cs[k] is CurDir) && (cs[k] is ParentDir ==> k == 0
            || cs[k - 1] is ParentDir)
}

/// Normalizing gives components in normal form.
pub proof fn lemma_normalized_is_normal(cs: Seq<ComponentView>)
    ensures
        is_normal(normalized(cs)),
    decreases cs.len(),
{
    if cs.len() > 0 {
        lemma_normalized_is_normal(cs.drop_last());
        let r = normalized(cs.drop_last());
        let out = normalized(cs);
        assert forall|k: int| 0 <= k < out.len() implies !(#[trigger] out[k] is CurDir) && (
        out[k] is ParentDir ==> k == 0 || out[k - 1] is ParentDir) by {
            if k < r.len() {
                assert(out[k] == r[k]);
                if k > 0 {
                    assert(out[k - 1] == r[k - 1]);
                }
            }
        }
    }
}

/// Components in normal form are left as they are.
pub proof fn lemma_normal_is_fixed(cs: Seq<ComponentView>)
    requires
        is_normal(cs),
    ensures
        normalized(cs) == cs,
    decreases cs.len(),
{
    if cs.len() > 0 {
        let init = cs.drop_last();
        assert forall|k: int| 0 <= k < init.len() implies !(#[trigger] init[k] is CurDir) && (
        init[k] is ParentDir ==> k == 0 || init[k - 1] is ParentDir) by {
            assert(init[k] == cs[k]);
            if k > 0 {
                assert(init[k - 1] == cs[k - 1]);
            }
        }
        lemma_normal_is_fixed(init);
        assert(!(cs[cs.len() - 1] is CurDir));
        if cs.last() is ParentDir && cs.len() > 1 {
            assert(cs[cs.len() - 2] is ParentDir);
            assert(init.last() == cs[cs.len() - 2]);
        }
        assert(init.push(cs.last()) =~= cs);
    }
}

/// Normalizing twice gives what normalizing once gives.
pub proof fn lemma_normalize_idempotent(cs: Seq<ComponentView>)
    ensures
        normalized(normalized(cs)) == normalized(cs),
{
    lemma_normalized_is_normal(cs);
    lemma_normal_is_fixed(normalized(cs));
}

} // verus!
