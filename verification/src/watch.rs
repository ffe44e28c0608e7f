//! Watching the project: which changes matter, and saying so once.
//!
//! Given a stream of raw notifications, [`Ignore`], [`Ours`] and [`Batch`] decide what is worth
//! publishing, and none of that needs a file system.
//!
//! Why a window at all: a save is not one system call. Editors write a temporary file, rename it
//! over the target, and truncate something in between, and every one of those steps is a
//! notification. Publishing them one by one would make a pane that reloads on change reload three
//! times per save.

use vstd::prelude::*;

use crate::event::{file_views, Event, FileEvent, FileEventView};
use crate::paths::{path_parts, path_view, rest_below, same_path, text_below, PathView};
use crate::text::{copy, views};

verus! {

/// How long a burst is collected before it is published, in milliseconds.
///
/// Long enough that the several notifications of one save land in the same window, short enough
/// that a pane reacting to a change still feels immediate.
pub const WINDOW_MS: u64 = 120;

// ---------------------------------------------------------------------------------------------
// Changes

/// What happened to one path, narrowed to what this app acts on.
#[derive(Debug, Clone, Copy, PartialEq, Eq, Structural)]
pub enum Change {
    Created,
    Changed,
    Removed,
}

impl Change {
    /// How a second notification for the same path folds into the first one, if at all.
    pub open spec fn merged(self, next: Change) -> Option<Change> {
        match (self, next) {
            (Change::Removed, Change::Created) => Some(Change::Changed),
            (Change::Created, Change::Removed) => None,
            (Change::Created, Change::Changed) => Some(Change::Created),
            (_, next) => Some(next),
        }
    }

    pub open spec fn event(self, path: Seq<char>) -> FileEventView {
        match self {
            Change::Created => FileEventView::Created { path },
            Change::Changed => FileEventView::Changed { path },
            Change::Removed => FileEventView::Removed { path },
        }
    }

    /// How a second notification for the same path folds into the first one, if at all.
    ///
    /// The rule is that the more informative of the two survives, not simply the later one. A file
    /// created and then written was created: a listing needs to know to look again, and "it changed"
    /// would leave a new file invisible until something else happened to refresh the list.
    pub fn merge(self, next: Self) -> (out: Option<Self>)
        ensures
            out == self.merged(next),
    {
        match (self, next) {
            // Deleted and recreated is one file saved again: an editor that writes a temporary file
            // and renames it over the target looks exactly like this, and reporting it as a new
            // file would make every save look like a new file.
            (Change::Removed, Change::Created) => Some(Change::Changed),
            // Created and gone again inside one window is a temporary file that came and went.
            // Nobody needs to hear about it.
            (Change::Created, Change::Removed) => None,
            // New, and then written to, in the same breath.
            (Change::Created, Change::Changed) => Some(Change::Created),
            (_, next) => Some(next),
        }
    }

    pub fn into_event(self, path: String) -> (out: FileEvent)
        ensures
            out@ == self.event(path@),
    {
        match self {
            Change::Created => FileEvent::Created { path },
            Change::Changed => FileEvent::Changed { path },
            Change::Removed => FileEvent::Removed { path },
        }
    }
}

/// What a notification says happened.
#[derive(Debug, Clone, Copy, PartialEq, Eq, Structural)]
pub enum EventKind {
    /// Something was read.
    Access,
    Create,
    Remove,
    /// The old end of a rename.
    RenameFrom,
    /// The new end of a rename.
    RenameTo,
    /// Both ends of a rename, the old one first.
    RenameBoth,
    /// A rename that does not say which end this is.
    Rename,
    Modify,
    /// Something else, or nothing in particular.
    Other,
}

/// What each path of a list and its change are.
pub open spec fn change_views(list: Seq<(String, Change)>) -> Seq<(Seq<char>, Change)> {
    Seq::new(list.len(), |i: int| (list[i].0@, list[i].1))
}

/// The same change for every path.
pub open spec fn all_of(paths: Seq<Seq<char>>, change: Change) -> Seq<(Seq<char>, Change)> {
    Seq::new(paths.len(), |i: int| (paths[i], change))
}

/// What a notification means, path by path.
pub open spec fn meaning(kind: EventKind, paths: Seq<Seq<char>>) -> Seq<(Seq<char>, Change)> {
    match kind {
        EventKind::Access => Seq::empty(),
        EventKind::Create | EventKind::RenameTo => all_of(paths, Change::Created),
        EventKind::Remove | EventKind::RenameFrom => all_of(paths, Change::Removed),
        EventKind::RenameBoth => if paths.len() >= 2 {
            seq![(paths[0], Change::Removed), (paths[1], Change::Created)]
        } else {
            all_of(paths, Change::Changed)
        },
        EventKind::Rename | EventKind::Modify | EventKind::Other => all_of(paths, Change::Changed),
    }
}

fn each(paths: &[String], change: Change) -> (out: Vec<(String, Change)>)
    ensures
        change_views(out@) == all_of(views(paths@), change),
{
    let mut out: Vec<(String, Change)> = Vec::new();
    let mut i: usize = 0;
    while i < paths.len()
        invariant
            i <= paths@.len(),
            out@.len() == i,
            forall|k: int|
                0 <= k < i ==> (#[trigger] out@[k]).0@ == paths@[k]@ && out@[k].1 == change,
        decreases paths@.len() - i,
    {
        out.push((copy(&paths[i]), change));
        i += 1;
    }
    assert(change_views(out@) =~= all_of(views(paths@), change));
    out
}

/// What one notification means, as a list of paths and what happened to each.
///
/// A rename is why this returns a list: it is one notification with two paths (or two with one each,
/// depending on the backend), and the two ends mean opposite things: the old path is gone, the new
/// one is new.
pub fn classify(kind: EventKind, paths: &[String]) -> (out: Vec<(String, Change)>)
    ensures
        change_views(out@) == meaning(kind, views(paths@)),
{
    match kind {
        // A read is not a change: a pane reloading because someone looked at a file would be a pane
        // reloading constantly.
        EventKind::Access => {
            let out: Vec<(String, Change)> = Vec::new();
            assert(change_views(out@) =~= Seq::<(Seq<char>, Change)>::empty());
            out
        },
        EventKind::Create | EventKind::RenameTo => each(paths, Change::Created),
        EventKind::Remove | EventKind::RenameFrom => each(paths, Change::Removed),
        // The rename arrived as a single notification carrying both ends, in that order.
        EventKind::RenameBoth => if paths.len() >= 2 {
            let mut out: Vec<(String, Change)> = Vec::new();
            out.push((copy(&paths[0]), Change::Removed));
            out.push((copy(&paths[1]), Change::Created));
            assert(change_views(out@) =~= meaning(kind, views(paths@)));
            out
        } else {
            each(paths, Change::Changed)
        },
        // The ends cannot be told apart, or nothing was said. A path that produced a notification
        // did change, and saying which way would be a guess.
        EventKind::Rename | EventKind::Modify | EventKind::Other => each(paths, Change::Changed),
    }
}

// ---------------------------------------------------------------------------------------------
// What is not worth watching

/// Trusted: `globset::GlobSetBuilder`, patterns on their way into a set.
#[verifier::external_type_specification]
#[verifier::external_body]
pub struct ExGlobSetBuilder(globset::GlobSetBuilder);

/// Trusted: `globset::GlobSet`, patterns that are matched together.
#[verifier::external_type_specification]
#[verifier::external_body]
pub struct ExGlobSet(globset::GlobSet);

/// Whether `globset::Glob::new` takes a text as a pattern.
pub uninterp spec fn glob_compiles(pattern: Seq<char>) -> bool;

/// Whether a set that holds just this pattern says that it matches a path.
pub uninterp spec fn glob_matches(pattern: Seq<char>, path: Seq<char>) -> bool;

/// The patterns a `globset::GlobSetBuilder` has been given.
pub uninterp spec fn builder_patterns(builder: globset::GlobSetBuilder) -> Seq<Seq<char>>;

/// The patterns a `globset::GlobSet` holds.
pub uninterp spec fn set_patterns(set: globset::GlobSet) -> Seq<Seq<char>>;

/// Trusted: `globset::GlobSetBuilder::new`, which starts with no patterns.
#[verifier::external_body]
fn new_builder() -> (out: globset::GlobSetBuilder)
    ensures
        builder_patterns(out) == Seq::<Seq<char>>::empty(),
{
    globset::GlobSetBuilder::new()
}

/// Trusted: `globset::Glob::new` and `globset::GlobSetBuilder::add`. Whether a text compiles depends
/// on the text alone; one that does is added behind the others, and one that does not adds nothing.
#[verifier::external_body]
fn add_pattern(builder: &mut globset::GlobSetBuilder, pattern: &str) -> (out: bool)
    ensures
        out == glob_compiles(pattern@),
        builder_patterns(*final(builder)) == if out {
            builder_patterns(*old(builder)).push(pattern@)
        } else {
            builder_patterns(*old(builder))
        },
{
    match globset::Glob::new(pattern) {
        Ok(glob) => {
            builder.add(glob);
            true
        },
        Err(_) => false,
    }
}

/// Trusted: `globset::GlobSetBuilder::build`. A set that is built holds the patterns that were
/// added. That one is built at all is left unsaid: the limit is on the size a compiled set takes in
/// memory, which is the machine's.
#[verifier::external_body]
fn build_set(builder: &globset::GlobSetBuilder) -> (out: Option<globset::GlobSet>)
    ensures
        out is Some ==> set_patterns(out->0) == builder_patterns(*builder),
{
    builder.build().ok()
}

/// Trusted: `globset::GlobSet::empty`, which holds no patterns.
#[verifier::external_body]
fn empty_set() -> (out: globset::GlobSet)
    ensures
        set_patterns(out) == Seq::<Seq<char>>::empty(),
{
    globset::GlobSet::empty()
}

/// Trusted: `globset::GlobSet::is_match`, true if any pattern in the set matches the path.
#[verifier::external_body]
fn set_matches(set: &globset::GlobSet, path: &str) -> (out: bool)
    ensures
        out == (exists|i: int|
            0 <= i < set_patterns(*set).len() && #[trigger] glob_matches(
                set_patterns(*set)[i],
                path@,
            )),
{
    set.is_match(path)
}

/// Whether any of the patterns matches a path.
pub open spec fn any_matches(patterns: Seq<Seq<char>>, path: Seq<char>) -> bool {
    exists|i: int| 0 <= i < patterns.len() && #[trigger] glob_matches(patterns[i], path)
}

/// Which paths a watcher does not care about.
///
/// Patterns are matched against the path relative to the watched root, so one rule holds wherever
/// the project sits.
pub struct Ignore {
    set: globset::GlobSet,
}

impl View for Ignore {
    type V = Seq<Seq<char>>;

    closed spec fn view(&self) -> Seq<Seq<char>> {
        set_patterns(self.set)
    }
}

/// What is ignored unless someone says otherwise: what a build leaves behind and what version
/// control keeps, and what editors leave (swap files, backups, and the numbered file vim leaves
/// mid-write). Watching those costs a notification per compile and tells nobody anything.
pub const DEFAULT_PATTERNS: [&'static str; 11] = [
    "**/.git/**",
    "**/target/**",
    "**/node_modules/**",
    "**/.venv/**",
    "**/__pycache__/**",
    "**/*.swp",
    "**/*.swx",
    "**/*~",
    "**/*.tmp",
    "**/.DS_Store",
    "**/4913",
];

/// The patterns of a list that compile.
pub open spec fn usable(patterns: Seq<Seq<char>>) -> Seq<Seq<char>>
    decreases patterns.len(),
{
    if patterns.len() == 0 {
        patterns
    } else if glob_compiles(patterns.last()) {
        usable(patterns.drop_last()).push(patterns.last())
    } else {
        usable(patterns.drop_last())
    }
}

/// Whether a path is one nobody asked about: outside the root, the root itself, or matched by a
/// pattern.
pub open spec fn ignored(patterns: Seq<Seq<char>>, root: Seq<char>, path: Seq<char>) -> bool {
    let rest = rest_below(path, path_view(root));
    !path_view(path).within(path_view(root)) || rest.len() == 0 || any_matches(patterns, rest)
}

/// The texts of a list.
pub open spec fn str_views(list: Seq<&str>) -> Seq<Seq<char>> {
    Seq::new(list.len(), |i: int| list[i]@)
}

impl Default for Ignore {
    fn default() -> (out: Self)
        ensures
            out@ == usable(str_views(DEFAULT_PATTERNS@)) || out@.len() == 0,
    {
        let patterns: [&'static str; 11] = DEFAULT_PATTERNS;
        Ignore::from_patterns(&patterns)
    }
}

/// The patterns of a list that compile, on their way into a set. A pattern that does not compile is
/// dropped: one bad rule in a config file should not stop the app from watching anything at all.
pub fn gather(patterns: &[&str]) -> (out: globset::GlobSetBuilder)
    ensures
        builder_patterns(out) == usable(str_views(patterns@)),
{
    let mut builder = new_builder();
    let ghost all = str_views(patterns@);
    let mut i: usize = 0;
    assert(all.take(0) =~= Seq::<Seq<char>>::empty());
    while i < patterns.len()
        invariant
            i <= patterns@.len(),
            all == str_views(patterns@),
            builder_patterns(builder) == usable(all.take(i as int)),
        decreases patterns@.len() - i,
    {
        assert(all.take(i + 1).drop_last() =~= all.take(i as int));
        assert(all.take(i + 1).last() == patterns@[i as int]@);
        let _ = add_pattern(&mut builder, patterns[i]);
        i += 1;
    }
    assert(all.take(all.len() as int) =~= all);
    builder
}

impl Ignore {
    /// What a set that was built ignores. When the set could not be built nothing is ignored.
    pub fn from_built(built: Option<globset::GlobSet>) -> (out: Self)
        ensures
            out@ == match built {
                Some(set) => set_patterns(set),
                None => Seq::empty(),
            },
    {
        match built {
            Some(set) => Ignore { set },
            None => Ignore { set: empty_set() },
        }
    }

    /// Build a set from glob patterns, without those that do not compile.
    ///
    /// How large a set may be depends on the machine, so whether one is built is not promised; when
    /// none is, nothing is ignored.
    pub fn from_patterns(patterns: &[&str]) -> (out: Self)
        ensures
            out@ == usable(str_views(patterns@)) || out@.len() == 0,
    {
        let builder = gather(patterns);
        Ignore::from_built(build_set(&builder))
    }

    /// Whether this path is one nobody asked about.
    ///
    /// A path outside the root is ignored: the watcher was pointed at a project, and a symlink that
    /// leads elsewhere is not part of it.
    pub fn ignores(&self, root: &str, path: &str) -> (out: bool)
        ensures
            out == ignored(self@, root@, path@),
    {
        let at = path_parts(root);
        if !path_parts(path).is_within(&at) {
            return true;
        }
        let rest = text_below(path, &at);
        rest.as_str().is_empty() || set_matches(&self.set, &rest)
    }
}

// ---------------------------------------------------------------------------------------------
// What this app wrote itself

/// The paths this app wrote itself.
///
/// The write side announces its own writes before making them, and the watcher remembers the
/// announcement so the notifications that follow are not published back. The memory lasts exactly
/// one window, which is the granularity the question is asked at: one write produces several
/// notifications (create, modify, modify), they all belong to the window the announcement preceded,
/// and anything a later window reports is somebody else's.
#[derive(Debug)]
pub struct Ours {
    waiting: Vec<String>,
}

/// What each path of a list is made of.
pub open spec fn path_views(paths: Seq<Seq<char>>) -> Seq<PathView> {
    Seq::new(paths.len(), |i: int| path_view(paths[i]))
}

impl View for Ours {
    type V = Seq<PathView>;

    closed spec fn view(&self) -> Seq<PathView> {
        path_views(views(self.waiting@))
    }
}

/// The announcements with one more. A path that is waiting already waits once.
pub open spec fn announced_view(waiting: Seq<PathView>, path: PathView) -> Seq<PathView> {
    if waiting.contains(path) {
        waiting
    } else {
        waiting.push(path)
    }
}

impl Default for Ours {
    fn default() -> (out: Self)
        ensures
            out@ == Seq::<PathView>::empty(),
    {
        let out = Ours { waiting: Vec::new() };
        assert(out@ =~= Seq::<PathView>::empty());
        out
    }
}

impl Ours {
    /// Record an announcement.
    pub fn announced(&mut self, path: &str)
        ensures
            final(self)@ == announced_view(old(self)@, path_view(path@)),
    {
        let ghost before = self@;
        if !self.takes(path) {
            let path = copy(path);
            self.waiting.push(path);
            assert(self@ =~= before.push(path_view(path@)));
        }
    }

    /// Whether this path's notification is one of ours.
    pub fn takes(&self, path: &str) -> (out: bool)
        ensures
            out == self@.contains(path_view(path@)),
    {
        let ghost all = self@;
        let mut i: usize = 0;
        while i < self.waiting.len()
            invariant
                i <= self.waiting@.len(),
                all == self@,
                forall|k: int| 0 <= k < i ==> all[k] != path_view(path@),
            decreases self.waiting@.len() - i,
        {
            assert(all[i as int] == path_view(self.waiting@[i as int]@));
            if same_path(&self.waiting[i], path) {
                return true;
            }
            i += 1;
        }
        false
    }

    /// Start a new window: what was ours a moment ago is nobody's to claim now.
    pub fn forget(&mut self)
        ensures
            final(self)@ == Seq::<PathView>::empty(),
    {
        self.waiting.clear();
        assert(self@ =~= Seq::<PathView>::empty());
    }
}

// ---------------------------------------------------------------------------------------------
// One window

/// Changes collected inside the current window, in the order their paths were first seen.
#[derive(Debug)]
pub struct Batch {
    held: Vec<(String, Change)>,
}

impl View for Batch {
    type V = Seq<(Seq<char>, Change)>;

    closed spec fn view(&self) -> Seq<(Seq<char>, Change)> {
        change_views(self.held@)
    }
}

/// The place of a path among the changes, from `k` on.
pub open spec fn place_of(
    held: Seq<(Seq<char>, Change)>,
    path: PathView,
    k: int,
) -> Option<int>
    decreases held.len() - k,
{
    if k < 0 || k >= held.len() {
        None
    } else if path_view(held[k].0) == path {
        Some(k)
    } else {
        place_of(held, path, k + 1)
    }
}

/// The changes once a notification has been folded in. A fold that yields nothing drops the path.
pub open spec fn absorbed(
    held: Seq<(Seq<char>, Change)>,
    path: Seq<char>,
    change: Change,
) -> Seq<(Seq<char>, Change)> {
    match place_of(held, path_view(path), 0) {
        None => held.push((path, change)),
        Some(i) => match held[i].1.merged(change) {
            Some(merged) => held.update(i, (held[i].0, merged)),
            None => held.remove(i),
        },
    }
}

/// No path stands twice.
pub open spec fn once_each(held: Seq<(Seq<char>, Change)>) -> bool {
    forall|i: int, j: int|
        0 <= i < j < held.len() ==> path_view((#[trigger] held[i]).0) != path_view(
            (#[trigger] held[j]).0,
        )
}

/// The changes as events.
pub open spec fn drained(held: Seq<(Seq<char>, Change)>) -> Seq<FileEventView> {
    Seq::new(held.len(), |i: int| held[i].1.event(held[i].0))
}

proof fn lemma_place(held: Seq<(Seq<char>, Change)>, path: PathView, k: int)
    requires
        0 <= k,
    ensures
        match place_of(held, path, k) {
            Some(i) => k <= i < held.len() && path_view(held[i].0) == path,
            None => forall|i: int| k <= i < held.len() ==> path_view((#[trigger] held[i]).0) != path,
        },
    decreases held.len() - k,
{
    if k < held.len() && path_view(held[k].0) != path {
        lemma_place(held, path, k + 1);
    }
}

/// Folding keeps each path once: however many notifications a save produces, its path is published
/// at most once in a window.
pub proof fn law_a_path_is_published_once(
    held: Seq<(Seq<char>, Change)>,
    path: Seq<char>,
    change: Change,
)
    requires
        once_each(held),
    ensures
        once_each(absorbed(held, path, change)),
{
    lemma_place(held, path_view(path), 0);
    let now = absorbed(held, path, change);
    match place_of(held, path_view(path), 0) {
        None => {
            assert forall|i: int, j: int| 0 <= i < j < now.len() implies path_view(
                (#[trigger] now[i]).0,
            ) != path_view((#[trigger] now[j]).0) by {
                assert(now[i] == held[i]);
                if j < held.len() {
                    assert(now[j] == held[j]);
                }
            }
        },
        Some(k) => {
            if held[k].1.merged(change) is None {
                assert forall|i: int, j: int| 0 <= i < j < now.len() implies path_view(
                    (#[trigger] now[i]).0,
                ) != path_view((#[trigger] now[j]).0) by {
                    let a = if i < k {
                        i
                    } else {
                        i + 1
                    };
                    let b = if j < k {
                        j
                    } else {
                        j + 1
                    };
                    assert(now[i] == held[a] && now[j] == held[b]);
                }
            } else {
                assert forall|i: int, j: int| 0 <= i < j < now.len() implies path_view(
                    (#[trigger] now[i]).0,
                ) != path_view((#[trigger] now[j]).0) by {
                    assert(now[i].0 == held[i].0 && now[j].0 == held[j].0);
                }
            }
        },
    }
}

impl Default for Batch {
    fn default() -> (out: Self)
        ensures
            out@ == Seq::<(Seq<char>, Change)>::empty(),
    {
        let out = Batch { held: Vec::new() };
        assert(out@ =~= Seq::<(Seq<char>, Change)>::empty());
        out
    }
}

impl Batch {
    #[verifier::type_invariant]
    pub closed spec fn sound(self) -> bool {
        once_each(self@)
    }

    /// Fold one notification in, applying [`Change::merge`]. A merge that yields nothing drops the
    /// path entirely.
    pub fn absorb(&mut self, path: &str, change: Change)
        ensures
            final(self)@ == absorbed(old(self)@, path@, change),
            once_each(final(self)@),
    {
        let mut before = Batch::default();
        std::mem::swap(self, &mut before);
        proof {
            use_type_invariant(&before);
            law_a_path_is_published_once(before@, path@, change);
        }
        let ghost all = before@;
        let Batch { mut held } = before;
        let mut i: usize = 0;
        while i < held.len()
            invariant
                i <= held@.len(),
                all == change_views(held@),
                once_each(all),
                once_each(absorbed(all, path@, change)),
                self@ == Seq::<(Seq<char>, Change)>::empty(),
                all == old(self)@,
                place_of(all, path_view(path@), 0) == place_of(all, path_view(path@), i as int),
            decreases held@.len() - i,
        {
            assert(all[i as int] == (held@[i as int].0@, held@[i as int].1));
            if same_path(&held[i].0, path) {
                match held[i].1.merge(change) {
                    Some(merged) => {
                        let (text, _) = held.remove(i);
                        held.insert(i, (text, merged));
                        assert(change_views(held@) =~= all.update(
                            i as int,
                            (all[i as int].0, merged),
                        ));
                    },
                    None => {
                        let _ = held.remove(i);
                        assert(change_views(held@) =~= all.remove(i as int));
                    },
                }
                *self = Batch { held };
                return;
            }
            i += 1;
        }
        held.push((copy(path), change));
        assert(change_views(held@) =~= all.push((path@, change)));
        *self = Batch { held };
    }

    pub fn is_empty(&self) -> (out: bool)
        ensures
            out == (self@.len() == 0),
    {
        self.held.len() == 0
    }

    /// Take everything collected, in the order the paths were first seen.
    pub fn drain(&mut self) -> (out: Vec<FileEvent>)
        ensures
            file_views(out@) == drained(old(self)@),
            final(self)@ == Seq::<(Seq<char>, Change)>::empty(),
    {
        let mut before = Batch::default();
        std::mem::swap(self, &mut before);
        let ghost all = before@;
        let Batch { held } = before;
        let mut out: Vec<FileEvent> = Vec::new();
        let mut i: usize = 0;
        while i < held.len()
            invariant
                i <= held@.len(),
                all == change_views(held@),
                out@.len() == i,
                forall|k: int| 0 <= k < i ==> (#[trigger] out@[k])@ == all[k].1.event(all[k].0),
            decreases held@.len() - i,
        {
            assert(all[i as int] == (held@[i as int].0@, held@[i as int].1));
            out.push(held[i].1.into_event(copy(&held[i].0)));
            i += 1;
        }
        assert(file_views(out@) =~= drained(all));
        out
    }
}

// ---------------------------------------------------------------------------------------------
// The watch

/// What a watch of a directory knows: what to leave out, what this app wrote itself, and what has
/// happened since the last window closed.
pub struct Watch {
    root: String,
    ignore: Ignore,
    ours: Ours,
    batch: Batch,
}

#[verifier::ext_equal]
pub struct WatchView {
    pub root: Seq<char>,
    pub patterns: Seq<Seq<char>>,
    pub ours: Seq<PathView>,
    pub batch: Seq<(Seq<char>, Change)>,
}

impl View for Watch {
    type V = WatchView;

    closed spec fn view(&self) -> WatchView {
        WatchView {
            root: self.root@,
            patterns: self.ignore@,
            ours: self.ours@,
            batch: self.batch@,
        }
    }
}

impl WatchView {
    /// Once an event has been heard: an announced write below the root is remembered.
    pub open spec fn heard(self, event: Event) -> WatchView {
        match event {
            Event::File(FileEvent::EditorWrote { path }) => if path_view(path@).within(
                path_view(self.root),
            ) {
                WatchView { ours: announced_view(self.ours, path_view(path@)), ..self }
            } else {
                self
            },
            _ => self,
        }
    }

    /// Whether a path's notification is passed over.
    pub open spec fn passes_over(self, path: Seq<char>) -> bool {
        ignored(self.patterns, self.root, path) || self.ours.contains(
            path_view(path),
        )
    }

    /// Once a change has been noticed.
    pub open spec fn noticed(self, path: Seq<char>, change: Change) -> WatchView {
        if self.passes_over(path) {
            self
        } else {
            WatchView { batch: absorbed(self.batch, path, change), ..self }
        }
    }

    /// Once changes have been noticed one after the other.
    pub open spec fn noticed_all(self, changes: Seq<(Seq<char>, Change)>) -> WatchView
        decreases changes.len(),
    {
        if changes.len() == 0 {
            self
        } else {
            self.noticed_all(changes.drop_last()).noticed(changes.last().0, changes.last().1)
        }
    }
}

impl Watch {
    /// Watch a directory, leaving out what nobody asked about.
    pub fn new(root: &str, ignore: Ignore) -> (out: Self)
        ensures
            out@ == (WatchView {
                root: root@,
                patterns: ignore@,
                ours: Seq::empty(),
                batch: Seq::empty(),
            }),
    {
        Watch { root: copy(root), ignore, ours: Ours::default(), batch: Batch::default() }
    }

    /// An event that was published: a write this app announces is remembered.
    ///
    /// The announcement is published before the write, so by the time the write's notification comes
    /// back it has been heard, as long as what was published is heard first.
    pub fn hear(&mut self, event: &Event)
        ensures
            final(self)@ == old(self)@.heard(*event),
    {
        match event {
            Event::File(FileEvent::EditorWrote { path }) => {
                let root = path_parts(&self.root);
                if path_parts(path).is_within(&root) {
                    self.ours.announced(path);
                }
            },
            _ => {},
        }
    }

    /// A notification from the file system.
    pub fn notice(&mut self, kind: EventKind, paths: &[String])
        ensures
            final(self)@ == old(self)@.noticed_all(meaning(kind, views(paths@))),
    {
        let changes = classify(kind, paths);
        let ghost all = change_views(changes@);
        let ghost before = self@;
        let mut i: usize = 0;
        assert(all.take(0) =~= Seq::<(Seq<char>, Change)>::empty());
        while i < changes.len()
            invariant
                i <= changes@.len(),
                all == change_views(changes@),
                self@ == before.noticed_all(all.take(i as int)),
            decreases changes@.len() - i,
        {
            assert(all.take(i + 1).drop_last() =~= all.take(i as int));
            assert(all.take(i + 1).last() == (changes@[i as int].0@, changes@[i as int].1));
            let path = &changes[i].0;
            let skip: bool = self.ignore.ignores(&self.root, path) || self.ours.takes(path);
            if !skip {
                self.batch.absorb(path, changes[i].1);
            }
            i += 1;
        }
        assert(all.take(all.len() as int) =~= all);
    }

    /// The window is over: what was collected is published, and what was announced is forgotten. A
    /// notification that arrives next belongs to a change nobody announced.
    pub fn close_window(&mut self) -> (out: Vec<FileEvent>)
        ensures
            file_views(out@) == drained(old(self)@.batch),
            final(self)@ == (WatchView {
                ours: Seq::empty(),
                batch: Seq::empty(),
                ..old(self)@
            }),
    {
        let out = self.batch.drain();
        self.ours.forget();
        out
    }
}

// ---------------------------------------------------------------------------------------------
// Laws

/// A save is one change, not five: changing a path again changes nothing about what is published.
pub proof fn law_a_save_is_one_change(held: Seq<(Seq<char>, Change)>, path: Seq<char>)
    requires
        once_each(held),
    ensures
        ({
            let once = absorbed(held, path, Change::Changed);
            absorbed(once, path, Change::Changed) == once
        }),
{
    lemma_place(held, path_view(path), 0);
    let once = absorbed(held, path, Change::Changed);
    match place_of(held, path_view(path), 0) {
        None => {
            lemma_found_last(held, path, Change::Changed);
            let i = held.len() as int;
            assert(once.update(i, (once[i].0, Change::Changed)) =~= once);
        },
        Some(i) => {
            lemma_place(once, path_view(path), 0);
            assert forall|k: int| 0 <= k < once.len() && k != i implies path_view(
                (#[trigger] once[k]).0,
            ) != path_view(path) by {
                assert(once[k] == held[k]);
            }
            assert(path_view(once[i].0) == path_view(path));
            assert(place_of(once, path_view(path), 0) == Some(i));
            assert(once.update(i, once[i]) =~= once);
        },
    }
}

proof fn lemma_found_last(held: Seq<(Seq<char>, Change)>, path: Seq<char>, change: Change)
    requires
        place_of(held, path_view(path), 0) is None,
    ensures
        place_of(held.push((path, change)), path_view(path), 0) == Some(held.len() as int),
{
    lemma_place(held, path_view(path), 0);
    let now = held.push((path, change));
    lemma_place(now, path_view(path), 0);
    match place_of(now, path_view(path), 0) {
        Some(i) => {
            if i < held.len() {
                assert(now[i] == held[i]);
            }
        },
        None => {
            assert(path_view(now[held.len() as int].0) == path_view(path));
        },
    }
}

/// A file created and then written is still a creation; a temporary file that comes and goes,
/// written to or not, is nothing; and a file removed and written again is a change.
pub proof fn law_the_informative_change_survives(held: Seq<(Seq<char>, Change)>, path: Seq<char>)
    requires
        place_of(held, path_view(path), 0) is None,
    ensures
        ({
            let created = absorbed(held, path, Change::Created);
            let written = absorbed(created, path, Change::Changed);
            let removed = absorbed(held, path, Change::Removed);
            &&& written == created
            &&& absorbed(created, path, Change::Removed) == held
            &&& absorbed(written, path, Change::Removed) == held
            &&& absorbed(removed, path, Change::Created) == held.push((path, Change::Changed))
        }),
{
    lemma_found_last(held, path, Change::Created);
    lemma_found_last(held, path, Change::Removed);
    let created = held.push((path, Change::Created));
    let removed = held.push((path, Change::Removed));
    let i = held.len() as int;
    assert(created.update(i, (path, Change::Created)) =~= created);
    assert(created.remove(i) =~= held);
    assert(removed.update(i, (path, Change::Changed)) =~= held.push((path, Change::Changed)));
}

/// An announcement is remembered for its whole window: it is there once it is made, and no other
/// announcement makes it forgotten.
pub proof fn law_an_announcement_lasts_its_window(
    waiting: Seq<PathView>,
    path: PathView,
    other: PathView,
)
    ensures
        announced_view(waiting, path).contains(path),
        waiting.contains(other) ==> announced_view(waiting, path).contains(other),
{
    let now = announced_view(waiting, path);
    if !waiting.contains(path) {
        assert(now[waiting.len() as int] == path);
    }
    if waiting.contains(other) {
        let i = choose|i: int| 0 <= i < waiting.len() && waiting[i] == other;
        assert(now[i] == other);
    }
}

/// What can happen inside a window.
pub enum Moment {
    Heard(Event),
    Noticed(Seq<char>, Change),
}

impl WatchView {
    /// Once things have happened one after the other, inside one window.
    pub open spec fn lived(self, moments: Seq<Moment>) -> WatchView
        decreases moments.len(),
    {
        if moments.len() == 0 {
            self
        } else {
            let before = self.lived(moments.drop_last());
            match moments.last() {
                Moment::Heard(event) => before.heard(event),
                Moment::Noticed(path, change) => before.noticed(path, change),
            }
        }
    }
}

/// Nothing that happens inside a window makes an announcement forgotten.
proof fn lemma_living_remembers(watch: WatchView, moments: Seq<Moment>, path: PathView)
    requires
        watch.ours.contains(path),
    ensures
        watch.lived(moments).ours.contains(path),
    decreases moments.len(),
{
    if moments.len() > 0 {
        let before = watch.lived(moments.drop_last());
        lemma_living_remembers(watch, moments.drop_last(), path);
        match moments.last() {
            Moment::Heard(Event::File(FileEvent::EditorWrote { path: written })) => {
                law_an_announcement_lasts_its_window(before.ours, path_view(written@), path);
            },
            _ => {},
        }
    }
}

/// A write this app announced does not come back: after the announcement, whatever else is announced
/// or noticed, no notification of that path is collected until the window closes.
pub proof fn law_announced_writes_do_not_come_back(
    watch: WatchView,
    event: Event,
    moments: Seq<Moment>,
    path: Seq<char>,
    change: Change,
)
    requires
        event matches Event::File(FileEvent::EditorWrote { path: written }) && path_view(written@)
            == path_view(path),
        path_view(path).within(path_view(watch.root)),
    ensures
        ({
            let later = watch.heard(event).lived(moments);
            later.noticed(path, change) == later
        }),
{
    law_an_announcement_lasts_its_window(watch.ours, path_view(path), path_view(path));
    lemma_living_remembers(watch.heard(event), moments, path_view(path));
}

/// What lies outside the watched root is never collected.
pub proof fn law_the_outside_is_ignored(watch: WatchView, path: Seq<char>, change: Change)
    requires
        !path_view(path).within(path_view(watch.root)),
    ensures
        watch.noticed(path, change) == watch,
{
}

/// How two changes of one path fold: what was created stays created when it is written, and is
/// nothing when it is gone again; what was removed and comes back is changed; and otherwise the later
/// of the two is what happened.
pub proof fn law_how_two_changes_fold(next: Change)
    ensures
        Change::Changed.merged(next) == Some(next),
        Change::Created.merged(Change::Created) == Some(Change::Created),
        Change::Created.merged(Change::Changed) == Some(Change::Created),
        Change::Created.merged(Change::Removed) is None,
        Change::Removed.merged(Change::Created) == Some(Change::Changed),
        Change::Removed.merged(Change::Changed) == Some(Change::Changed),
        Change::Removed.merged(Change::Removed) == Some(Change::Removed),
{
}

/// A path that is new to a window goes behind the others, as it was named. One that is there already
/// keeps its place and its name; only what happened to it is folded, and it leaves when nothing did.
/// Every other path stays as it is.
pub proof fn law_a_change_touches_its_own_path(
    held: Seq<(Seq<char>, Change)>,
    path: Seq<char>,
    change: Change,
    i: int,
)
    requires
        once_each(held),
    ensures
        (forall|k: int| 0 <= k < held.len() ==> path_view((#[trigger] held[k]).0) != path_view(path))
            ==> absorbed(held, path, change) == held.push((path, change)),
        0 <= i < held.len() && path_view(held[i].0) == path_view(path) ==> match held[i].1.merged(
            change,
        ) {
            Some(merged) => absorbed(held, path, change) == held.update(i, (held[i].0, merged)),
            None => absorbed(held, path, change) == held.remove(i),
        },
{
    lemma_place(held, path_view(path), 0);
    if 0 <= i < held.len() && path_view(held[i].0) == path_view(path) {
        let at = place_of(held, path_view(path), 0)->0;
        if at < i {
            assert(path_view(held[at].0) != path_view(held[i].0));
        }
        if i < at {
            assert(path_view(held[i].0) != path_view(held[at].0));
        }
    }
}

/// What a notification means of each of its paths: what was made or moved in is created, what was
/// deleted or moved out is removed, a move that names both ends is both in that order, and anything
/// else but a read is a change.
pub proof fn law_what_a_notification_means(kind: EventKind, paths: Seq<Seq<char>>, i: int)
    ensures
        kind is Access ==> meaning(kind, paths).len() == 0,
        kind is RenameBoth && paths.len() >= 2 ==> meaning(kind, paths) == seq![
            (paths[0], Change::Removed),
            (paths[1], Change::Created),
        ],
        !(kind is Access) && !(kind is RenameBoth && paths.len() >= 2) ==> meaning(
            kind,
            paths,
        ).len() == paths.len(),
        0 <= i < paths.len() && (kind is Create || kind is RenameTo) ==> meaning(kind, paths)[i] == (
            paths[i],
            Change::Created,
        ),
        0 <= i < paths.len() && (kind is Remove || kind is RenameFrom) ==> meaning(kind, paths)[i]
            == (paths[i], Change::Removed),
        0 <= i < paths.len() && (kind is Modify || kind is Rename || kind is Other || (
        kind is RenameBoth && paths.len() < 2)) ==> meaning(kind, paths)[i] == (
            paths[i],
            Change::Changed,
        ),
{
}

/// What happens to a path below the root that no pattern matches and nobody announced is collected;
/// what a pattern matches is not, and neither is the root itself.
pub proof fn law_what_nobody_announced_is_collected(
    watch: WatchView,
    path: Seq<char>,
    change: Change,
    k: int,
)
    requires
        path_view(path).within(path_view(watch.root)),
    ensures
        ({
            let rest = rest_below(path, path_view(watch.root));
            &&& rest.len() > 0 && !watch.ours.contains(path_view(path)) && (forall|i: int|
                0 <= i < watch.patterns.len() ==> !#[trigger] glob_matches(
                    watch.patterns[i],
                    rest,
                )) ==> watch.noticed(path, change) == (WatchView {
                batch: absorbed(watch.batch, path, change),
                ..watch
            })
            &&& rest.len() == 0 ==> watch.noticed(path, change) == watch
            &&& 0 <= k < watch.patterns.len() && glob_matches(watch.patterns[k], rest)
                ==> watch.noticed(path, change) == watch
        }),
{
}

/// A write that this app announces below the root is remembered; an announcement elsewhere and any
/// other event change nothing.
pub proof fn law_only_announced_writes_are_remembered(watch: WatchView, event: Event)
    ensures
        watch.heard(event).batch == watch.batch,
        watch.heard(event).root == watch.root,
        watch.heard(event).patterns == watch.patterns,
        event matches Event::File(FileEvent::EditorWrote { path }) ==> {
            &&& path_view(path@).within(path_view(watch.root)) ==> watch.heard(event).ours.contains(
                path_view(path@),
            )
            &&& !path_view(path@).within(path_view(watch.root)) ==> watch.heard(event) == watch
        },
        !(event matches Event::File(FileEvent::EditorWrote { .. })) ==> watch.heard(event) == watch,
{
    if let Event::File(FileEvent::EditorWrote { path }) = event {
        law_an_announcement_lasts_its_window(watch.ours, path_view(path@), path_view(path@));
    }
}

/// Changes are noticed one after the other.
pub proof fn law_changes_are_noticed_in_their_order(
    watch: WatchView,
    a: Seq<(Seq<char>, Change)>,
    b: Seq<(Seq<char>, Change)>,
    path: Seq<char>,
    change: Change,
)
    ensures
        watch.noticed_all(a + b) == watch.noticed_all(a).noticed_all(b),
        watch.noticed_all(seq![(path, change)]) == watch.noticed(path, change),
        watch.noticed_all(Seq::empty()) == watch,
    decreases b.len(),
{
    if b.len() == 0 {
        assert(a + b =~= a);
    } else {
        law_changes_are_noticed_in_their_order(watch, a, b.drop_last(), path, change);
        assert((a + b).drop_last() =~= a + b.drop_last());
        assert((a + b).last() == b.last());
    }
    let one = seq![(path, change)];
    assert(one.drop_last() =~= Seq::<(Seq<char>, Change)>::empty());
    assert(one.last() == (path, change));
    reveal_with_fuel(WatchView::noticed_all, 2);
}

/// What was collected is published path by path, in the order the paths were first seen, each as what
/// happened to it.
pub proof fn law_each_path_is_published_as_what_happened(
    held: Seq<(Seq<char>, Change)>,
    i: int,
)
    requires
        0 <= i < held.len(),
    ensures
        drained(held).len() == held.len(),
        held[i].1 is Created ==> drained(held)[i] == (FileEventView::Created { path: held[i].0 }),
        held[i].1 is Changed ==> drained(held)[i] == (FileEventView::Changed { path: held[i].0 }),
        held[i].1 is Removed ==> drained(held)[i] == (FileEventView::Removed { path: held[i].0 }),
{
}

/// A pattern that does not compile is left out, and every other is used, in its order.
pub proof fn law_only_patterns_that_compile_are_used(patterns: Seq<Seq<char>>)
    ensures
        usable(patterns) == patterns.filter(|pattern: Seq<char>| glob_compiles(pattern)),
    decreases patterns.len(),
{
    reveal(Seq::filter);
    if patterns.len() > 0 {
        law_only_patterns_that_compile_are_used(patterns.drop_last());
    } else {
        assert(patterns =~= patterns.filter(|pattern: Seq<char>| glob_compiles(pattern)));
    }
}

} // verus!
