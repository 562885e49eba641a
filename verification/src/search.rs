//! Where the benchmarking tool keeps its results, and the search that a
//! caller runs over them.

use vstd::prelude::*;
use crate::entry::{DirectoryEntry, EntryKind, EntryView};
use crate::walk::{step, yield_view, BenchmarkIter, WalkEvent, WalkItem};

verus! {

/// Directory below the root of a Cargo project into which Cargo builds.
pub const BUILD_DIR: &'static str = "target";

/// Directory below the build directory that belongs to the tool.
pub const TOOL_DIR: &'static str = "criterion";

/// Directory below the tool's directory that holds recorded data.
pub const DATA_DIR: &'static str = "data";

/// The one timeline that the tool writes to.
pub const TIMELINE: &'static str = "main";

/// Benchmark data search: the place a caller named and the directories from
/// there down to the data root.
#[derive(Debug)]
pub struct Search {
    base: String,
    below: Vec<String>,
}

/// Mathematical content of a [`Search`].
pub struct SearchView {
    /// The path that the caller gave.
    pub base: Seq<char>,
    /// Names of the directories that lead from there to the data root.
    pub below: Seq<Seq<char>>,
}

impl View for Search {
    type V = SearchView;

    closed spec fn view(&self) -> SearchView {
        SearchView { base: self.base@, below: self.below.deep_view() }
    }
}

impl Search {
    /// Starts from the root of a Cargo project or workspace. The data root is
    /// `target/criterion/data/main` below it.
    pub fn in_cargo_root(cargo_root: &str) -> (search: Self)
        ensures
            search@.base == cargo_root@,
            search@.below == seq![BUILD_DIR@, TOOL_DIR@, DATA_DIR@, TIMELINE@],
    {
        let mut below: Vec<String> = Vec::new();
        below.push(String::from_str(BUILD_DIR));
        below.push(String::from_str(TOOL_DIR));
        below.push(String::from_str(DATA_DIR));
        below.push(String::from_str(TIMELINE));
        assert(below.deep_view() == seq![BUILD_DIR@, TOOL_DIR@, DATA_DIR@, TIMELINE@]);
        Search { base: String::from_str(cargo_root), below }
    }

    /// Starts from the build directory itself. The data root is
    /// `criterion/data/main` below it.
    pub fn in_target_dir(target_path: &str) -> (search: Self)
        ensures
            search@.base == target_path@,
            search@.below == seq![TOOL_DIR@, DATA_DIR@, TIMELINE@],
    {
        let mut below: Vec<String> = Vec::new();
        below.push(String::from_str(TOOL_DIR));
        below.push(String::from_str(DATA_DIR));
        below.push(String::from_str(TIMELINE));
        assert(below.deep_view() == seq![TOOL_DIR@, DATA_DIR@, TIMELINE@]);
        Search { base: String::from_str(target_path), below }
    }

    /// The path that the search started from.
    pub fn base(&self) -> (base: &str)
        ensures
            base@ == self@.base,
    {
        self.base.as_str()
    }

    /// Names of the directories that lead from the base to the data root.
    pub fn below(&self) -> (below: &Vec<String>)
        ensures
            below.deep_view() == self@.below,
    {
        &self.below
    }

    /// Finds all benchmark data: the grouping to hand every entry of the walk
    /// to.
    pub fn find_all(self, data_root_exists: bool) -> (iter: BenchmarkIter)
        ensures
            iter@.files == Seq::<EntryView>::empty(),
            iter@.no_data == !data_root_exists,
    {
        BenchmarkIter::new(data_root_exists)
    }

    /// Finds the benchmark data below the directories that a predicate
    /// accepts. The predicate is asked once for each directory that the walk
    /// meets, before the walk goes into it, so that a caller who looks for
    /// `a/b/c` accepts `a` at depth 1, `b` at depth 2 and `c` at depth 3.
    pub fn find_in_paths<F: Fn(DataDirectory) -> bool>(
        self,
        data_root_exists: bool,
        path_filter: F,
    ) -> (iter: FilteredIter<F>)
        ensures
            iter.inner()@.files == Seq::<EntryView>::empty(),
            iter.inner()@.no_data == !data_root_exists,
            iter.path_filter() == path_filter,
    {
        FilteredIter { iter: BenchmarkIter::new(data_root_exists), path_filter }
    }
}

/// A directory below the data root.
#[derive(Debug)]
pub struct DataDirectory<'dirwalk> {
    entry: &'dirwalk DirectoryEntry,
}

impl<'dirwalk> View for DataDirectory<'dirwalk> {
    type V = EntryView;

    closed spec fn view(&self) -> EntryView {
        self.entry@
    }
}

/// An entry that the predicate of a search is asked about.
pub open spec fn is_data_directory(entry: EntryView) -> bool {
    entry.kind == EntryKind::Directory && !entry.symlink && entry.path.len() > 0
}

impl<'dirwalk> DataDirectory<'dirwalk> {
    #[verifier::type_invariant]
    spec fn inv(self) -> bool {
        is_data_directory(self.entry@)
    }

    /// Accepts a directory below the data root that is no link.
    pub fn new(entry: &'dirwalk DirectoryEntry) -> (directory: Option<Self>)
        ensures
            match directory {
                Some(d) => d@ == entry@ && is_data_directory(entry@),
                None => !is_data_directory(entry@),
            },
    {
        if entry.is_dir() && !entry.symlink && entry.depth() > 0 {
            Some(DataDirectory { entry })
        } else {
            None
        }
    }

    /// Name of this data directory, without the path leading to it.
    pub fn dir_name(&self) -> (name: &str)
        ensures
            name@ == self@.name(),
    {
        self.entry.file_name()
    }

    /// Depth at which this data directory appears: 1 directly below the data
    /// root, 2 for the directories in those, and so on.
    pub fn depth(&self) -> (depth: usize)
        ensures
            depth == self@.depth(),
            depth >= 1,
    {
        proof {
            use_type_invariant(self);
        }
        self.entry.depth()
    }

    /// Path to this data directory from the data root, by its components.
    pub fn path_from_data_root(&self) -> (path: &Vec<String>)
        ensures
            path.deep_view() == self@.path,
    {
        &self.entry.path
    }
}

/// Grouping of the entries of a walk that a predicate on directories prunes.
pub struct FilteredIter<F> {
    iter: BenchmarkIter,
    path_filter: F,
}

/// What one step of a pruned walk yields.
#[derive(Debug)]
pub struct FilteredStep {
    /// The unit or error that the event completes, if any.
    pub item: Option<WalkItem>,
    /// Whether the walk goes on into the directory it just met. It means
    /// nothing where the event is no directory.
    pub descend: bool,
}

/// The directory that an event of the walk brings, if it brings one.
pub open spec fn met_directory(event: WalkEvent) -> Option<EntryView> {
    match event {
        Some(Ok(entry)) => if is_data_directory(entry@) {
            Some(entry@)
        } else {
            None
        },
        _ => None,
    }
}

/// The predicate `filter` can answer `verdict` when asked about the
/// directory `met`.
pub open spec fn judged<F: Fn(DataDirectory) -> bool>(
    filter: F,
    met: EntryView,
    verdict: bool,
) -> bool {
    exists|directory: DataDirectory|
        directory@ == met && #[trigger] call_ensures(filter, (directory,), verdict)
}

impl<F: Fn(DataDirectory) -> bool> FilteredIter<F> {
    /// The grouping that the accepted entries are handed to.
    pub closed spec fn inner(self) -> BenchmarkIter {
        self.iter
    }

    /// The predicate on directories.
    pub closed spec fn path_filter(self) -> F {
        self.path_filter
    }

    /// Takes the next event of the walk. A directory goes to the predicate
    /// first: one that it rejects is as if the walk had never met it, and the
    /// walk is told not to go into it. Everything else, files above all,
    /// goes to the grouping unasked.
    pub fn advance(&mut self, event: WalkEvent) -> (outcome: FilteredStep)
        requires
            forall|directory: DataDirectory| call_requires(old(self).path_filter(), (directory,)),
        ensures
            final(self).path_filter() == old(self).path_filter(),
            final(self).inner()@.no_data == old(self).inner()@.no_data,
            met_directory(event) matches Some(met) ==> judged(
                old(self).path_filter(),
                met,
                outcome.descend,
            ),
            met_directory(event) is None ==> outcome.descend,
            outcome.descend ==> final(self).inner()@.files == step(
                old(self).inner()@.no_data,
                old(self).inner()@.files,
                event,
            ).files && yield_view(outcome.item) == step(
                old(self).inner()@.no_data,
                old(self).inner()@.files,
                event,
            ).item,
            !outcome.descend ==> final(self).inner()@ == old(self).inner()@ && outcome.item is None,
    {
        let ghost filter = self.path_filter();
        let accepted = match &event {
            Some(Ok(entry)) => match DataDirectory::new(entry) {
                Some(directory) => {
                    let ghost asked = directory;
                    assert(call_requires(filter, (asked,)));
                    let verdict = (self.path_filter)(directory);
                    assert(asked@ == entry@ && call_ensures(filter, (asked,), verdict));
                    assert(judged(filter, entry@, verdict));
                    verdict
                },
                None => true,
            },
            _ => true,
        };
        let item = if accepted {
            self.iter.advance(event)
        } else {
            None
        };
        FilteredStep { item, descend: accepted }
    }
}

} // verus!
