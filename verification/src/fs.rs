use rustc_hash::{FxBuildHasher, FxHashSet};
use vstd::prelude::*;

verus! {

/// `rustc_hash::FxBuildHasher`, the hasher of the sets of names: only
/// named as a type parameter; nothing of it is read here.
#[verifier::external_type_specification]
#[verifier::external_body]
pub struct ExFxBuildHasher(FxBuildHasher);

/// The names that a set of names holds, by their text.
pub uninterp spec fn names_in(s: FxHashSet<String>) -> Set<Seq<char>>;

/// `FxHashSet::default`: a set that holds no name.
#[verifier::external_body]
pub(crate) fn name_set_new() -> (r: FxHashSet<String>)
    ensures
        names_in(r) == Set::<Seq<char>>::empty(),
{
    FxHashSet::default()
}

/// `HashSet::insert`: the set afterwards holds `name` besides what it held.
#[verifier::external_body]
pub(crate) fn name_set_insert(s: &mut FxHashSet<String>, name: String)
    ensures
        names_in(*final(s)) == names_in(*old(s)).insert(name@),
{
    s.insert(name);
}

/// `HashSet::contains`: whether the set holds a name equal to `name`.
#[verifier::external_body]
pub(crate) fn name_set_contains(s: &FxHashSet<String>, name: &str) -> (r: bool)
    ensures
        r == names_in(*s).contains(name@),
{
    s.contains(name)
}

/// What `str::to_lowercase` gives for a text.
pub uninterp spec fn lowercase_of(s: Seq<char>) -> Seq<char>;

/// `str::to_lowercase`: the text in Unicode lower case.
#[verifier::external_body]
fn to_lowercase(s: &str) -> (r: String)
    ensures
        r@ == lowercase_of(s@),
{
    s.to_lowercase()
}

/// The kind of a directory entry.
#[derive(Debug, Clone, Copy, PartialEq, Eq, Structural)]
pub enum EntryKind {
    File,
    Dir,
    Other,
}

/// The entries of one directory, read once, so that existence checks can
/// be answered without asking the file system again.
#[derive(Debug)]
pub struct DirListing {
    plain_files: FxHashSet<String>,
    plain_dirs: FxHashSet<String>,
    all_names_lower: FxHashSet<String>,
}

/// The mathematical value of a [`DirListing`].
pub struct DirListingView {
    /// The names of the files.
    pub files: Set<Seq<char>>,
    /// The names of the directories.
    pub dirs: Set<Seq<char>>,
    /// Every name, in lower case.
    pub lower: Set<Seq<char>>,
}

impl View for DirListing {
    type V = DirListingView;

    closed spec fn view(&self) -> DirListingView {
        DirListingView {
            files: names_in(self.plain_files),
            dirs: names_in(self.plain_dirs),
            lower: names_in(self.all_names_lower),
        }
    }
}

/// The listing after an entry `name` of the given kind is recorded.
pub open spec fn listing_insert(v: DirListingView, name: Seq<char>, kind: EntryKind) -> DirListingView {
    DirListingView {
        files: if kind == EntryKind::File {
            v.files.insert(name)
        } else {
            v.files
        },
        dirs: if kind == EntryKind::Dir {
            v.dirs.insert(name)
        } else {
            v.dirs
        },
        lower: v.lower.insert(lowercase_of(name)),
    }
}

/// The answer for `name` among the names of one kind: yes when the name
/// is there exactly, no when no entry has its lower case, and no answer
/// when only an entry of another case matches.
pub open spec fn probe(v: DirListingView, exact: Set<Seq<char>>, name: Seq<char>) -> Option<bool> {
    if exact.contains(name) {
        Some(true)
    } else if !v.lower.contains(lowercase_of(name)) {
        Some(false)
    } else {
        None
    }
}

impl DirListing {
    /// A listing with no entry.
    pub fn new() -> (l: Self)
        ensures
            l@.files == Set::<Seq<char>>::empty(),
            l@.dirs == Set::<Seq<char>>::empty(),
            l@.lower == Set::<Seq<char>>::empty(),
    {
        DirListing {
            plain_files: name_set_new(),
            plain_dirs: name_set_new(),
            all_names_lower: name_set_new(),
        }
    }

    /// Records an entry.
    pub fn insert(&mut self, name: String, kind: EntryKind)
        ensures
            final(self)@ == listing_insert(old(self)@, name@, kind),
    {
        let lower = to_lowercase(name.as_str());
        name_set_insert(&mut self.all_names_lower, lower);
        match kind {
            EntryKind::File => {
                name_set_insert(&mut self.plain_files, name);
            },
            EntryKind::Dir => {
                name_set_insert(&mut self.plain_dirs, name);
            },
            EntryKind::Other => {},
        }
    }

    /// Whether `name` is a file: `Some(true)` when it is, `Some(false)`
    /// when no entry has its name in any case, `None` when only an entry
    /// whose name differs in case matches and the file system must decide.
    pub fn probe_is_file(&self, name: &str) -> (r: Option<bool>)
        ensures
            r == probe(self@, self@.files, name@),
    {
        if name_set_contains(&self.plain_files, name) {
            return Some(true);
        }
        let lower = to_lowercase(name);
        if !name_set_contains(&self.all_names_lower, lower.as_str()) {
            return Some(false);
        }
        None
    }

    /// Whether `name` is a directory, answered as [`Self::probe_is_file`]
    /// answers for files.
    pub fn probe_is_dir(&self, name: &str) -> (r: Option<bool>)
        ensures
            r == probe(self@, self@.dirs, name@),
    {
        if name_set_contains(&self.plain_dirs, name) {
            return Some(true);
        }
        let lower = to_lowercase(name);
        if !name_set_contains(&self.all_names_lower, lower.as_str()) {
            return Some(false);
        }
        None
    }
}

impl Default for DirListing {
    fn default() -> (l: Self)
        ensures
            l@.files == Set::<Seq<char>>::empty(),
            l@.dirs == Set::<Seq<char>>::empty(),
            l@.lower == Set::<Seq<char>>::empty(),
    {
        DirListing::new()
    }
}

/// The file system of the machine.
#[derive(Debug)]
pub struct StdFs;

/// A file system that holds nothing.
#[derive(Debug)]
pub struct NullFs;

/// A recorded file is found as a file.
pub proof fn lemma_inserted_file_is_file(v: DirListingView, name: Seq<char>)
    ensures
        ({
            let w = listing_insert(v, name, EntryKind::File);
            probe(w, w.files, name) == Some(true)
        }),
{
}

/// A recorded directory is found as a directory.
pub proof fn lemma_inserted_dir_is_dir(v: DirListingView, name: Seq<char>)
    ensures
        ({
            let w = listing_insert(v, name, EntryKind::Dir);
            probe(w, w.dirs, name) == Some(true)
        }),
{
}

/// After any entry is recorded, neither probe denies its name: the answer
/// is yes or is left to the file system.
pub proof fn lemma_inserted_never_denied(v: DirListingView, name: Seq<char>, kind: EntryKind)
    ensures
        ({
            let w = listing_insert(v, name, kind);
            probe(w, w.files, name) != Some(false) && probe(w, w.dirs, name) != Some(false)
        }),
{
}


/// The listing after recording each entry in turn, from an empty one.
pub open spec fn listing_of(entries: Seq<(Seq<char>, EntryKind)>) -> DirListingView
    decreases entries.len(),
{
    if entries.len() == 0 {
        DirListingView {
            files: Set::empty(),
            dirs: Set::empty(),
            lower: Set::empty(),
        }
    } else {
        listing_insert(
            listing_of(entries.drop_last()),
            entries.last().0,
            entries.last().1,
        )
    }
}

/// Recording a directory, or an entry of another kind, leaves the files
/// as they were.
pub proof fn lemma_non_file_keeps_files(v: DirListingView, name: Seq<char>, kind: EntryKind)
    requires
        kind != EntryKind::File,
    ensures
        listing_insert(v, name, kind).files == v.files,
{
}

/// In a listing built from entries, a name is answered as a file exactly
/// when it was recorded as one (and as a directory exactly when it was
/// recorded as one): a directory is never taken for a file.
pub proof fn lemma_listing_files_are_recorded_files(
    entries: Seq<(Seq<char>, EntryKind)>,
    name: Seq<char>,
)
    ensures
        ({
            let w = listing_of(entries);
            &&& (probe(w, w.files, name) == Some(true)) == (exists|k: int|
                0 <= k < entries.len() && #[trigger] entries[k] == (name, EntryKind::File))
            &&& (probe(w, w.dirs, name) == Some(true)) == (exists|k: int|
                0 <= k < entries.len() && #[trigger] entries[k] == (name, EntryKind::Dir))
        }),
    decreases entries.len(),
{
    if entries.len() > 0 {
        let init = entries.drop_last();
        lemma_listing_files_are_recorded_files(init, name);
        let last = entries.len() - 1;
        assert(entries[last] == entries.last());
        if exists|k: int| 0 <= k < init.len() && #[trigger] init[k] == (name, EntryKind::File) {
            let k = choose|k: int| 0 <= k < init.len() && #[trigger] init[k] == (name, EntryKind::File);
            assert(entries[k] == init[k]);
        }
        if exists|k: int| 0 <= k < init.len() && #[trigger] init[k] == (name, EntryKind::Dir) {
            let k = choose|k: int| 0 <= k < init.len() && #[trigger] init[k] == (name, EntryKind::Dir);
            assert(entries[k] == init[k]);
        }
        if exists|k: int| 0 <= k < entries.len() && #[trigger] entries[k] == (name, EntryKind::File) {
            let k = choose|k: int| 0 <= k < entries.len() && #[trigger] entries[k] == (name, EntryKind::File);
            if k < last {
                assert(init[k] == entries[k]);
            }
        }
        if exists|k: int| 0 <= k < entries.len() && #[trigger] entries[k] == (name, EntryKind::Dir) {
            let k = choose|k: int| 0 <= k < entries.len() && #[trigger] entries[k] == (name, EntryKind::Dir);
            if k < last {
                assert(init[k] == entries[k]);
            }
        }
    }
}


/// In a listing built from entries, the lower-case names are those of the
/// entries: a probe answers no (`Some(false)`) exactly when no entry has
/// the name in any case.
pub proof fn lemma_listing_lower_names(entries: Seq<(Seq<char>, EntryKind)>, name: Seq<char>)
    ensures
        listing_of(entries).lower.contains(lowercase_of(name)) == (exists|k: int|
            0 <= k < entries.len() && lowercase_of(#[trigger] entries[k].0) == lowercase_of(name)),
    decreases entries.len(),
{
    if entries.len() > 0 {
        let init = entries.drop_last();
        lemma_listing_lower_names(init, name);
        let last = entries.len() - 1;
        assert(entries[last] == entries.last());
        if exists|k: int| 0 <= k < init.len() && lowercase_of(#[trigger] init[k].0) == lowercase_of(name) {
            let k = choose|k: int| 0 <= k < init.len() && lowercase_of(#[trigger] init[k].0) == lowercase_of(name);
            assert(entries[k] == init[k]);
        }
        if exists|k: int| 0 <= k < entries.len() && lowercase_of(#[trigger] entries[k].0) == lowercase_of(name) {
            let k = choose|k: int| 0 <= k < entries.len() && lowercase_of(#[trigger] entries[k].0) == lowercase_of(name);
            if k < last {
                assert(init[k] == entries[k]);
            }
        }
    }
}

} // verus!
