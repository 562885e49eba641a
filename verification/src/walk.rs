//! The grouping of an ordered stream of directory entries into benchmark
//! units.
//!
//! The caller walks the data root depth first, the entries of each directory
//! sorted by [`walk_order`](crate::entry::walk_order), and hands every entry
//! to a [`BenchmarkIter`] as it meets it. Files of one directory arrive in a
//! row, the metadata record last, so a unit is complete when an entry of
//! another directory, a directory, or the end of the walk follows.

use vstd::prelude::*;
use crate::entry::{DirectoryEntry, EntryKind, EntryView};
use crate::path::copy_path;
use crate::unit::{
    lemma_unit_stamped_by_name, unit_of, Benchmark, LayoutViolation, UnitView, ViolationKind,
    ViolationView,
};

verus! {

/// Error that `walkdir` reports for an entry it could not read. It is carried
/// through as it is.
#[verifier::external_type_specification]
#[verifier::external_body]
pub struct ExWalkdirError(walkdir::Error);

/// What the walk yields in place of a unit when something is wrong.
#[derive(Debug)]
pub enum WalkError {
    /// The filesystem walk failed at one entry.
    Entry(walkdir::Error),
    /// The tree does not have the promised layout.
    Layout(LayoutViolation),
}

/// Mathematical content of a [`WalkError`].
pub enum WalkFault {
    Entry(walkdir::Error),
    Layout(ViolationView),
}

impl View for WalkError {
    type V = WalkFault;

    open spec fn view(&self) -> WalkFault {
        match self {
            WalkError::Entry(e) => WalkFault::Entry(*e),
            WalkError::Layout(v) => WalkFault::Layout(v@),
        }
    }
}

/// One step of the filesystem walk: an entry, a failure at an entry, or
/// `None` once the walk is over.
pub type WalkEvent = Option<Result<DirectoryEntry, walkdir::Error>>;

/// What one step of the grouping yields.
pub type WalkItem = Result<Benchmark, WalkError>;

/// Mathematical content of a [`WalkItem`].
pub open spec fn item_view(item: WalkItem) -> Result<UnitView, WalkFault> {
    match item {
        Ok(unit) => Ok(unit@),
        Err(error) => Err(error@),
    }
}

/// Mathematical content of what a step yields.
pub open spec fn yield_view(item: Option<WalkItem>) -> Option<Result<UnitView, WalkFault>> {
    match item {
        Some(item) => Some(item_view(item)),
        None => None,
    }
}

/// Why an entry cannot be part of the tree at all.
pub open spec fn entry_fault(entry: EntryView) -> Option<ViolationKind> {
    if entry.symlink {
        Some(ViolationKind::Symlink)
    } else if entry.kind == EntryKind::Other {
        Some(ViolationKind::NotFileOrDirectory)
    } else if entry.path.len() == 0 {
        Some(ViolationKind::RootEntry)
    } else {
        None
    }
}

/// What leaves the accumulator when the files in it are known to be all of
/// their directory: nothing where it is empty, else the unit that the last
/// file and those before it form, or the breach found among them.
pub open spec fn flushed(files: Seq<EntryView>) -> Option<Result<UnitView, WalkFault>> {
    if files.len() == 0 {
        None
    } else {
        Some(
            match unit_of(files.last(), files.drop_last()) {
                Ok(unit) => Ok(unit),
                Err(violation) => Err(WalkFault::Layout(violation)),
            },
        )
    }
}

/// The accumulator after an entry that does not continue it.
pub open spec fn restarted(entry: EntryView) -> Seq<EntryView> {
    if entry.kind == EntryKind::File {
        seq![entry]
    } else {
        Seq::empty()
    }
}

/// Whether `entry` continues the directory that the accumulator holds files
/// of.
pub open spec fn continues(files: Seq<EntryView>, entry: EntryView) -> bool {
    &&& files.len() > 0
    &&& entry.kind == EntryKind::File
    &&& entry.depth() == files.last().depth()
    &&& entry.parent() == files.last().parent()
}

/// State of the grouping and what it yields.
pub struct Step {
    pub files: Seq<EntryView>,
    pub item: Option<Result<UnitView, WalkFault>>,
}

/// The transition of the grouping: from the files accumulated so far and the
/// next event of the walk to the files accumulated afterwards and the item
/// yielded, if any.
pub open spec fn step(no_data: bool, files: Seq<EntryView>, event: WalkEvent) -> Step {
    if no_data {
        Step { files, item: None }
    } else {
        match event {
            None => Step { files: Seq::empty(), item: flushed(files) },
            Some(Err(failure)) => Step { files, item: Some(Err(WalkFault::Entry(failure))) },
            Some(Ok(entry)) => match entry_fault(entry@) {
                Some(kind) => Step {
                    files,
                    item: Some(Err(WalkFault::Layout(ViolationView { kind, path: entry@.path }))),
                },
                None => if continues(files, entry@) {
                    Step { files: files.push(entry@), item: None }
                } else {
                    Step { files: restarted(entry@), item: flushed(files) }
                },
            },
        }
    }
}

/// The items that a step yields, as a sequence of none or one.
pub open spec fn yielded(item: Option<Result<UnitView, WalkFault>>) -> Seq<
    Result<UnitView, WalkFault>,
> {
    match item {
        Some(item) => seq![item],
        None => Seq::empty(),
    }
}

/// Everything that the grouping yields for a whole walk: what each entry
/// completes, in order, and what the end of the walk completes.
pub open spec fn walk_items(
    no_data: bool,
    files: Seq<EntryView>,
    events: Seq<Result<DirectoryEntry, walkdir::Error>>,
) -> Seq<Result<UnitView, WalkFault>>
    decreases events.len(),
{
    if events.len() == 0 {
        yielded(step(no_data, files, None).item)
    } else {
        let first = step(no_data, files, Some(events[0]));
        yielded(first.item) + walk_items(no_data, first.files, events.drop_first())
    }
}

/// Mathematical content of a sequence of items.
pub open spec fn items_view(items: Seq<WalkItem>) -> Seq<Result<UnitView, WalkFault>> {
    items.map_values(|item: WalkItem| item_view(item))
}

/// Grouping of the walk's entries into benchmark units.
#[derive(Debug)]
pub struct BenchmarkIter {
    /// Files seen so far in the current directory.
    files_in_current_dir: Vec<DirectoryEntry>,
    /// There is no data root, and nothing is ever yielded.
    no_data: bool,
}

/// Mathematical content of a [`BenchmarkIter`].
pub struct IterView {
    pub files: Seq<EntryView>,
    pub no_data: bool,
}

impl View for BenchmarkIter {
    type V = IterView;

    closed spec fn view(&self) -> IterView {
        IterView { files: self.files_in_current_dir.deep_view(), no_data: self.no_data }
    }
}

impl BenchmarkIter {
    /// Starts a grouping. Where the data root does not exist there are no
    /// benchmarks, whatever the walk reports.
    pub fn new(data_root_exists: bool) -> (iter: Self)
        ensures
            iter@.files == Seq::<EntryView>::empty(),
            iter@.no_data == !data_root_exists,
    {
        let iter = BenchmarkIter { files_in_current_dir: Vec::new(), no_data: !data_root_exists };
        assert(iter.files_in_current_dir.deep_view() == Seq::<EntryView>::empty());
        iter
    }

    /// The end of a directory's files was reached: forms a unit from those
    /// accumulated, if there are any.
    fn emit_benchmark(&mut self) -> (item: Option<WalkItem>)
        ensures
            final(self)@.files == Seq::<EntryView>::empty(),
            final(self)@.no_data == old(self)@.no_data,
            yield_view(item) == flushed(old(self)@.files),
    {
        let mut files: Vec<DirectoryEntry> = Vec::new();
        assert(files.deep_view() == Seq::<EntryView>::empty());
        std::mem::swap(&mut self.files_in_current_dir, &mut files);
        let ghost before = files.deep_view();
        match files.pop() {
            None => None,
            Some(metadata) => {
                assert(metadata@ == before.last());
                assert(files.deep_view() == before.drop_last());
                match Benchmark::new(metadata, files) {
                    Ok(unit) => Some(Ok(unit)),
                    Err(violation) => Some(Err(WalkError::Layout(violation))),
                }
            },
        }
    }

    /// Takes the next event of the walk and yields what it completes: a
    /// unit, an error, or nothing yet.
    pub fn advance(&mut self, event: WalkEvent) -> (item: Option<WalkItem>)
        ensures
            final(self)@.no_data == old(self)@.no_data,
            final(self)@.files == step(old(self)@.no_data, old(self)@.files, event).files,
            yield_view(item) == step(old(self)@.no_data, old(self)@.files, event).item,
            item matches Some(Ok(unit)) ==> unit@.wf() && unit@.stamped_by_name(),
    {
        proof {
            let files = self@.files;
            if files.len() > 0 {
                lemma_unit_stamped_by_name(files.last(), files.drop_last());
            }
        }
        if self.no_data {
            return None;
        }
        let entry = match event {
            None => {
                return self.emit_benchmark();
            },
            Some(Err(failure)) => {
                return Some(Err(WalkError::Entry(failure)));
            },
            Some(Ok(entry)) => entry,
        };
        let kind = if entry.symlink {
            Some(ViolationKind::Symlink)
        } else if !entry.is_file() && !entry.is_dir() {
            Some(ViolationKind::NotFileOrDirectory)
        } else if entry.depth() == 0 {
            Some(ViolationKind::RootEntry)
        } else {
            None
        };
        if let Some(kind) = kind {
            let path = copy_path(&entry.path);
            return Some(Err(WalkError::Layout(LayoutViolation { kind, path })));
        }
        let n = self.files_in_current_dir.len();
        let ghost files = self.files_in_current_dir.deep_view();
        if n > 0 && entry.is_file() && entry.same_parent(&self.files_in_current_dir[n - 1]) {
            assert(files.last() == self.files_in_current_dir[n - 1]@);
            self.files_in_current_dir.push(entry);
            assert(self.files_in_current_dir.deep_view() == files.push(entry@));
            return None;
        }
        assert(n > 0 ==> files.last() == self.files_in_current_dir[n - 1]@);
        let item = self.emit_benchmark();
        if entry.is_file() {
            self.files_in_current_dir.push(entry);
            assert(self.files_in_current_dir.deep_view() == seq![entry@]);
        }
        item
    }
}

/// Groups the entries of a finished walk: every unit and every error, in the
/// order in which a step-by-step grouping yields them.
pub fn group_entries(
    data_root_exists: bool,
    events: Vec<Result<DirectoryEntry, walkdir::Error>>,
) -> (items: Vec<WalkItem>)
    ensures
        items_view(items@) == walk_items(!data_root_exists, Seq::empty(), events@),
        forall|i: int|
            0 <= i < items.len() ==> ((#[trigger] items[i]) matches Ok(unit) ==> unit@.wf()
                && unit@.stamped_by_name()),
{
    let mut iter = BenchmarkIter::new(data_root_exists);
    let mut items: Vec<WalkItem> = Vec::new();
    let ghost all = events@;
    assert(items_view(items@) == Seq::<Result<UnitView, WalkFault>>::empty());
    assert(all.skip(0) == all);
    for event in it: events
        invariant
            it.seq() == all,
            iter@.no_data == !data_root_exists,
            forall|i: int|
                0 <= i < items.len() ==> ((#[trigger] items[i]) matches Ok(unit) ==> unit@.wf()
                    && unit@.stamped_by_name()),
            items_view(items@) + walk_items(!data_root_exists, iter@.files, all.skip(it.index()))
                == walk_items(!data_root_exists, Seq::empty(), all),
    {
        let ghost rest = all.skip(it.index());
        let ghost before = items_view(items@);
        assert(rest[0] == event);
        assert(rest.drop_first() == all.skip(it.index() + 1));
        if let Some(item) = iter.advance(Some(event)) {
            items.push(item);
            assert(items_view(items@) == before + seq![item_view(item)]);
        }
    }
    let ghost before = items_view(items@);
    assert(all.skip(all.len() as int).len() == 0);
    if let Some(item) = iter.advance(None) {
        items.push(item);
        assert(items_view(items@) == before + seq![item_view(item)]);
    }
    items
}

} // verus!
