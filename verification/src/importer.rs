use vstd::prelude::*;
use vstd::string::StringExecFns;

use crate::import_path::texts;
use crate::options::InputSyntax;

verus! {

/// What an importer makes of a URL.
#[derive(Debug, Clone)]
pub enum ImportResolution {
    /// The importer loaded the stylesheet itself.
    Resolved { canonical_url: String, contents: String, syntax: InputSyntax },
    /// The URL names this path, to be loaded from the file system.
    DelegateToPath(String),
    /// The importer does not know the URL.
    NotFound,
}

/// The positions of the candidates that were found, in order.
pub open spec fn found_positions(found: Seq<bool>) -> Seq<usize>
    decreases found.len(),
{
    if found.len() == 0 {
        Seq::empty()
    } else {
        let r = found_positions(found.drop_last());
        if found.last() {
            r.push((found.len() - 1) as usize)
        } else {
            r
        }
    }
}

/// An import that more than one candidate file answers.
#[derive(Debug)]
pub struct AmbiguousImport {
    /// The candidates that were found, in order.
    pub found: Vec<String>,
}

/// The positions of the flags that are set, in order.
pub fn positions_of(found: &Vec<bool>) -> (r: Vec<usize>)
    ensures
        r@ == found_positions(found@),
        forall|k: int| 0 <= k < r@.len() ==> #[trigger] r@[k] < found@.len(),
{
    let mut positions: Vec<usize> = Vec::new();
    let mut i: usize = 0;
    while i < found.len()
        invariant
            i <= found@.len(),
            positions@ == found_positions(found@.take(i as int)),
            forall|k: int| 0 <= k < positions@.len() ==> #[trigger] positions@[k] < i,
        decreases found.len() - i,
    {
        proof {
            assert(found@.take(i + 1).drop_last() =~= found@.take(i as int));
        }
        if found[i] {
            positions.push(i);
        }
        i = i + 1;
    }
    proof {
        assert(found@.take(i as int) =~= found@);
    }
    positions
}

/// Picks the file an import loads from candidates of one group, given
/// which of them exist: none found gives `None`, one found gives its
/// position, and more than one is an error that lists them, in order.
pub fn choose_import(candidates: &Vec<String>, found: &Vec<bool>) -> (r: Result<
    Option<usize>,
    AmbiguousImport,
>)
    requires
        candidates@.len() == found@.len(),
    ensures
        found_positions(found@).len() == 0 ==> r matches Ok(None),
        found_positions(found@).len() == 1 ==> (r matches Ok(Some(i)) && i == found_positions(
            found@,
        )[0]),
        found_positions(found@).len() > 1 ==> (r matches Err(e) && e.found@.len()
            == found_positions(found@).len() && forall|k: int|
            0 <= k < e.found@.len() ==> #[trigger] e.found@[k]@
                == candidates@[found_positions(found@)[k] as int]@),
{
    let positions = positions_of(found);
    if positions.len() == 0 {
        return Ok(None);
    } else if positions.len() == 1 {
        return Ok(Some(positions[0]));
    }
    let mut paths: Vec<String> = Vec::new();
    let mut i: usize = 0;
    while i < positions.len()
        invariant
            i <= positions@.len(),
            positions@ == found_positions(found@),
            candidates@.len() == found@.len(),
            forall|k: int| 0 <= k < positions@.len() ==> #[trigger] positions@[k] < found@.len(),
            paths@.len() == i,
            forall|k: int|
                0 <= k < i ==> #[trigger] paths@[k]@ == candidates@[positions@[k] as int]@,
        decreases positions.len() - i,
    {
        paths.push(candidates[positions[i]].clone());
        i = i + 1;
    }
    Err(AmbiguousImport { found: paths })
}

/// The message of an ambiguous import: a line saying so, then each found
/// path on a line of its own, indented by two spaces.
pub open spec fn ambiguous_message(paths: Seq<Seq<char>>) -> Seq<char>
    decreases paths.len(),
{
    if paths.len() == 0 {
        "It's not clear which file to import. Found:"@
    } else {
        ambiguous_message(paths.drop_last()) + "\n  "@ + paths.last()
    }
}

impl AmbiguousImport {
    /// The message reported for this import, with each path shown as
    /// given in `shown` (the found paths, as the user should read them).
    pub fn message(shown: &Vec<String>) -> (m: String)
        ensures
            m@ == ambiguous_message(shown@.map_values(|p: String| p@)),
    {
        let mut m = String::from_str("It's not clear which file to import. Found:");
        let mut i: usize = 0;
        while i < shown.len()
            invariant
                i <= shown@.len(),
                m@ == ambiguous_message(shown@.take(i as int).map_values(|p: String| p@)),
            decreases shown.len() - i,
        {
            proof {
                assert(shown@.take(i + 1).map_values(|p: String| p@).drop_last() =~= shown@.take(
                    i as int,
                ).map_values(|p: String| p@));
            }
            m.append("\n  ");
            m.append(shown[i].as_str());
            i = i + 1;
        }
        proof {
            assert(shown@.take(i as int) =~= shown@);
        }
        m
    }
}


/// The directories an import is looked up in, in order: the importing
/// file's own directory, then each load path.
pub fn import_bases(current_dir: &str, load_paths: &Vec<String>) -> (r: Vec<String>)
    ensures
        texts(r@) == seq![current_dir@] + texts(load_paths@),
{
    let mut bases: Vec<String> = Vec::new();
    bases.push(String::from_str(current_dir));
    let mut i: usize = 0;
    while i < load_paths.len()
        invariant
            i <= load_paths@.len(),
            texts(bases@) == seq![current_dir@] + texts(load_paths@.take(i as int)),
        decreases load_paths.len() - i,
    {
        let ghost before = bases@;
        bases.push(load_paths[i].clone());
        proof {
            assert(texts(bases@) =~= texts(before).push(load_paths@[i as int]@));
            assert(texts(load_paths@.take(i + 1)) =~= texts(
                load_paths@.take(i as int),
            ).push(load_paths@[i as int]@));
        }
        i = i + 1;
    }
    proof {
        assert(load_paths@.take(i as int) =~= load_paths@);
    }
    bases
}

/// Where the search for an imported file stands. Each base (see
/// [`import_bases`]) is tried in turn: the candidate groups of the path
/// in it (step 0 the import-only files, 1 the Sass files, 2 the CSS
/// files), then, at step 3, whether the path is a directory, whose
/// `index` is then tried the same way. A path that names its extension
/// (see `explicit_candidates`) is searched for in its first base alone,
/// and the first CSS file found there is taken.
#[derive(Debug, Clone, Copy)]
pub struct ImportSearch {
    /// How many bases there are.
    pub bases: usize,
    /// Whether the import-only files are tried (for `@import`).
    pub for_import: bool,
    /// Whether the path names its extension.
    pub explicit: bool,
    /// The base being tried.
    pub base: usize,
    /// Whether the `index` of the path, as a directory, is being tried.
    pub index: bool,
    /// The step within the current path.
    pub step: usize,
}

/// What the search asks for next, or how it ended.
#[derive(Debug)]
pub enum ImportAction {
    /// Report which candidates of this group exist, for the path in the
    /// base (or for its `index`), in the order of `import_candidates`.
    Probe { base: usize, index: bool, group: usize },
    /// Report, as a single flag, whether the path in the base is a directory.
    CheckDir { base: usize },
    /// The candidate at this position of the probed group is the file.
    Found { base: usize, index: bool, group: usize, position: usize },
    /// More than one candidate of the probed group exists, at these positions.
    Ambiguous { base: usize, index: bool, group: usize, positions: Vec<usize> },
    /// No base has the file.
    NotFound,
}

/// An [`ImportAction`] with its positions as a sequence.
pub enum ImportActionView {
    Probe { base: usize, index: bool, group: usize },
    CheckDir { base: usize },
    Found { base: usize, index: bool, group: usize, position: usize },
    Ambiguous { base: usize, index: bool, group: usize, positions: Seq<usize> },
    NotFound,
}

impl View for ImportAction {
    type V = ImportActionView;

    open spec fn view(&self) -> ImportActionView {
        match self {
            ImportAction::Probe { base, index, group } => ImportActionView::Probe {
                base: *base,
                index: *index,
                group: *group,
            },
            ImportAction::CheckDir { base } => ImportActionView::CheckDir { base: *base },
            ImportAction::Found { base, index, group, position } => ImportActionView::Found {
                base: *base,
                index: *index,
                group: *group,
                position: *position,
            },
            ImportAction::Ambiguous { base, index, group, positions } => ImportActionView::Ambiguous {
                base: *base,
                index: *index,
                group: *group,
                positions: positions@,
            },
            ImportAction::NotFound => ImportActionView::NotFound,
        }
    }
}

/// The first step for a path: the import-only files for `@import`, the
/// Sass files otherwise.
pub open spec fn first_step(for_import: bool) -> usize {
    if for_import {
        0
    } else {
        1
    }
}

impl ImportSearch {
    /// The steps stay in range: no directory check for an `index`, and no
    /// import-only step unless the search is for `@import`.
    pub open spec fn wf(&self) -> bool {
        &&& self.step <= 3
        &&& self.index ==> self.step <= 2
        &&& self.explicit ==> !self.index && self.step <= 2
        &&& self.step >= first_step(self.for_import)
    }

    /// A search over `bases` bases, at the first step of the first base.
    pub fn new(bases: usize, for_import: bool, explicit: bool) -> (r: Self)
        ensures
            r == (ImportSearch {
                bases,
                for_import,
                explicit,
                base: 0,
                index: false,
                step: first_step(for_import),
            }),
            r.wf(),
    {
        ImportSearch {
            bases,
            for_import,
            explicit,
            base: 0,
            index: false,
            step: if for_import {
                0
            } else {
                1
            },
        }
    }
}

/// The search at the first step of the next base.
pub open spec fn next_base(s: ImportSearch) -> ImportSearch {
    ImportSearch { base: (s.base + 1) as usize, index: false, step: first_step(s.for_import), ..s }
}

/// The search with every base done.
pub open spec fn finished(s: ImportSearch) -> ImportSearch {
    ImportSearch { base: s.bases, ..s }
}

/// The search after a group in which nothing was found: the next group,
/// after the CSS files the directory check (or, for an `index`, the next
/// base); a path that names its extension ends there.
pub open spec fn after_group(s: ImportSearch) -> ImportSearch {
    if s.step < 2 {
        ImportSearch { step: (s.step + 1) as usize, ..s }
    } else if s.explicit {
        finished(s)
    } else if !s.index {
        ImportSearch { step: 3, ..s }
    } else {
        next_base(s)
    }
}

/// What a search asks in its state: nothing when the bases are done.
pub open spec fn ask(s: ImportSearch) -> ImportActionView {
    if s.base >= s.bases {
        ImportActionView::NotFound
    } else if s.step == 3 {
        ImportActionView::CheckDir { base: s.base }
    } else {
        ImportActionView::Probe { base: s.base, index: s.index, group: s.step }
    }
}

/// One step of the search, given the answer to what it asked (`None` to
/// start): a group with one candidate found ends the search with it, one
/// with more ends it as ambiguous (but the CSS files of a path that names
/// its extension give the first found), and one with none moves on; a
/// directory moves on to its `index`, anything else to the next base.
pub open spec fn import_step_spec(s: ImportSearch, answer: Option<Seq<bool>>) -> (
    ImportSearch,
    ImportActionView,
) {
    match answer {
        None => (s, ask(s)),
        Some(flags) => if s.base >= s.bases {
            (s, ImportActionView::NotFound)
        } else if s.step == 3 {
            let n = if flags.len() > 0 && flags[0] {
                ImportSearch { index: true, step: first_step(s.for_import), ..s }
            } else {
                next_base(s)
            };
            (n, ask(n))
        } else {
            let found = found_positions(flags);
            if found.len() == 1 || (s.explicit && s.step == 2 && found.len() > 1) {
                (
                    s,
                    ImportActionView::Found {
                        base: s.base,
                        index: s.index,
                        group: s.step,
                        position: found[0],
                    },
                )
            } else if found.len() > 1 {
                (
                    s,
                    ImportActionView::Ambiguous {
                        base: s.base,
                        index: s.index,
                        group: s.step,
                        positions: found,
                    },
                )
            } else {
                let n = after_group(s);
                (n, ask(n))
            }
        },
    }
}

/// The flags of an answer, as a sequence.
pub open spec fn answer_view(answer: &Option<Vec<bool>>) -> Option<Seq<bool>> {
    match answer {
        Some(v) => Some(v@),
        None => None,
    }
}

fn ask_exec(s: &ImportSearch) -> (r: ImportAction)
    ensures
        r@ == ask(*s),
{
    if s.base >= s.bases {
        ImportAction::NotFound
    } else if s.step == 3 {
        ImportAction::CheckDir { base: s.base }
    } else {
        ImportAction::Probe { base: s.base, index: s.index, group: s.step }
    }
}

/// One step of the search for an imported file: takes the answer to what
/// the search last asked (`None` to start) and gives the next state and
/// what to do.
pub fn import_step(state: &ImportSearch, answer: Option<Vec<bool>>) -> (r: (
    ImportSearch,
    ImportAction,
))
    requires
        state.wf(),
    ensures
        r.0 == import_step_spec(*state, answer_view(&answer)).0,
        r.1@ == import_step_spec(*state, answer_view(&answer)).1,
        r.0.wf(),
{
    let s = *state;
    match answer {
        None => (s, ask_exec(&s)),
        Some(flags) => {
            if s.base >= s.bases {
                (s, ImportAction::NotFound)
            } else if s.step == 3 {
                let n = if flags.len() > 0 && flags[0] {
                    ImportSearch { index: true, step: if s.for_import { 0 } else { 1 }, ..s }
                } else {
                    ImportSearch {
                        base: s.base + 1,
                        index: false,
                        step: if s.for_import { 0 } else { 1 },
                        ..s
                    }
                };
                let a = ask_exec(&n);
                (n, a)
            } else {
                let found = positions_of(&flags);
                if found.len() == 1 || (s.explicit && s.step == 2 && found.len() > 1) {
                    let position = found[0];
                    (s, ImportAction::Found { base: s.base, index: s.index, group: s.step, position })
                } else if found.len() > 1 {
                    (
                        s,
                        ImportAction::Ambiguous {
                            base: s.base,
                            index: s.index,
                            group: s.step,
                            positions: found,
                        },
                    )
                } else {
                    let n = if s.step < 2 {
                        ImportSearch { step: s.step + 1, ..s }
                    } else if s.explicit {
                        ImportSearch { base: s.bases, ..s }
                    } else if !s.index {
                        ImportSearch { step: 3, ..s }
                    } else {
                        ImportSearch {
                            base: s.base + 1,
                            index: false,
                            step: if s.for_import { 0 } else { 1 },
                            ..s
                        }
                    };
                    let a = ask_exec(&n);
                    (n, a)
                }
            }
        },
    }
}


/// How much of a search is left: the bases after the current one, then
/// the steps after the current one in it.
pub open spec fn search_left(s: ImportSearch) -> int {
    if s.base >= s.bases {
        0
    } else {
        (s.bases - s.base) * 8 - (if s.index {
            4int
        } else {
            0int
        }) - s.step
    }
}

/// Each answer that does not end a search moves it on: less of it is
/// left, and it goes on in the same base or the next one.
pub proof fn lemma_search_moves_on(s: ImportSearch, flags: Seq<bool>)
    requires
        s.wf(),
    ensures
        ({
            let (n, a) = import_step_spec(s, Some(flags));
            (a is Probe || a is CheckDir) ==> search_left(n) < search_left(s) && (n.base == s.base
                || n.base == s.base + 1)
        }),
        import_step_spec(s, Some(flags)).0.wf(),
{
}

} // verus!
