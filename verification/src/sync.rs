//! Keeping a persisted cache in step with the tree.
//!
//! The cache holds one row per benchmark directory, with the time at which
//! the metadata record was last seen modified, and one row per measurement
//! file. A pass loads what the cache holds into a [`CacheIndex`], visits the
//! units that the walk yields, and for each learns from the index what has to
//! be read and written: the metadata record only where it is new or has been
//! rewritten since, and only those measurements that the cache does not hold.

use vstd::prelude::*;
use crate::entry::EntryView;
use crate::path::{copy_path, same_path};
use crate::stamp::{parse_rfc3339, rfc3339_instant, ModTime};
use crate::text::same_text;
use crate::search::{BUILD_DIR, TOOL_DIR};
use crate::unit::{Benchmark, UnitView};
use crate::walk::{WalkError, WalkFault};

verus! {

/// Name of the file that holds the cache, beside the tool's data directory.
pub const DATABASE_FILE: &'static str = "data.sqlite";

/// What the cache holds of one benchmark.
#[derive(Debug)]
struct CacheRow {
    path: Vec<String>,
    modified: ModTime,
    measurements: Vec<String>,
}

/// What the cache holds of one benchmark, without the path that is its key.
pub struct RowView {
    /// When the metadata record was last seen modified.
    pub modified: ModTime,
    /// Names of the measurement files that the cache holds.
    pub measurements: Set<Seq<char>>,
}

/// Mathematical content of a [`CacheIndex`]: what the cache holds of each
/// benchmark, by the benchmark's path below the data root.
pub type CacheView = Map<Seq<Seq<char>>, RowView>;

/// What the cache holds, by the path of each benchmark below the data root.
#[derive(Debug)]
pub struct CacheIndex {
    rows: Vec<CacheRow>,
}

/// Why what was read from the cache cannot be an index.
#[derive(Clone, Copy, Debug, PartialEq, Eq, Structural)]
pub enum SchemaError {
    /// A modification time is not written as RFC 3339 asks.
    BadModified,
    /// Two benchmark rows have the same path.
    DuplicateBenchmark,
    /// A measurement row names a benchmark of which there is no row.
    OrphanMeasurement,
    /// Two measurement rows of one benchmark name the same file.
    DuplicateMeasurement,
}

/// The row at `i` is the row of the benchmark at `path`.
spec fn row_at(rows: Seq<CacheRow>, path: Seq<Seq<char>>, i: int) -> bool {
    0 <= i < rows.len() && rows[i].path.deep_view() == path
}

/// What a row holds, without its path.
spec fn row_view(row: CacheRow) -> RowView {
    RowView { modified: row.modified, measurements: row.measurements.deep_view().to_set() }
}

/// No two rows are rows of the same benchmark.
spec fn rows_distinct(rows: Seq<CacheRow>) -> bool {
    forall|i: int, j: int|
        0 <= i < j < rows.len() ==> (#[trigger] rows[i]).path.deep_view() != (
        #[trigger] rows[j]).path.deep_view()
}

/// The rows as a map from the path of each benchmark to what its row holds.
spec fn rows_map(rows: Seq<CacheRow>) -> CacheView {
    Map::new(
        |path: Seq<Seq<char>>| exists|i: int| row_at(rows, path, i),
        |path: Seq<Seq<char>>| row_view(rows[choose|i: int| row_at(rows, path, i)]),
    )
}

/// Each row is found in the map under its path.
proof fn lemma_row(rows: Seq<CacheRow>, i: int)
    requires
        rows_distinct(rows),
        0 <= i < rows.len(),
    ensures
        rows_map(rows).dom().contains(rows[i].path.deep_view()),
        rows_map(rows)[rows[i].path.deep_view()] == row_view(rows[i]),
{
    let path = rows[i].path.deep_view();
    assert(row_at(rows, path, i));
    let j = choose|j: int| row_at(rows, path, j);
    assert(i == j);
}

/// A path that no row has is not in the map.
proof fn lemma_absent(rows: Seq<CacheRow>, path: Seq<Seq<char>>)
    requires
        forall|i: int| 0 <= i < rows.len() ==> (#[trigger] rows[i]).path.deep_view() != path,
    ensures
        !rows_map(rows).dom().contains(path),
{
    if rows_map(rows).dom().contains(path) {
        let i = choose|i: int| row_at(rows, path, i);
        assert(rows[i].path.deep_view() == path);
    }
}

/// Adding a row for a new path inserts it into the map.
proof fn lemma_pushed(rows: Seq<CacheRow>, row: CacheRow)
    requires
        rows_distinct(rows),
        forall|i: int|
            0 <= i < rows.len() ==> (#[trigger] rows[i]).path.deep_view() != row.path.deep_view(),
    ensures
        rows_distinct(rows.push(row)),
        rows_map(rows.push(row)) == rows_map(rows).insert(row.path.deep_view(), row_view(row)),
{
    let more = rows.push(row);
    assert(rows_distinct(more));
    let target = rows_map(rows).insert(row.path.deep_view(), row_view(row));
    assert forall|path: Seq<Seq<char>>|
        rows_map(more).dom().contains(path) <==> target.dom().contains(path) by {
        if rows_map(more).dom().contains(path) {
            let i = choose|i: int| row_at(more, path, i);
            if i < rows.len() {
                assert(row_at(rows, path, i));
            }
        }
        if target.dom().contains(path) {
            if path == row.path.deep_view() {
                assert(row_at(more, path, rows.len() as int));
            } else {
                let i = choose|i: int| row_at(rows, path, i);
                assert(row_at(more, path, i));
            }
        }
    }
    assert forall|path: Seq<Seq<char>>| rows_map(more).dom().contains(path) implies rows_map(
        more,
    )[path] == target[path] by {
        let i = choose|i: int| row_at(more, path, i);
        lemma_row(more, i);
        if i < rows.len() {
            lemma_row(rows, i);
        }
    }
    assert(rows_map(more) =~= target);
}

/// Replacing a row by one with the same path replaces it in the map.
proof fn lemma_updated(rows: Seq<CacheRow>, at: int, row: CacheRow)
    requires
        rows_distinct(rows),
        0 <= at < rows.len(),
        rows[at].path.deep_view() == row.path.deep_view(),
    ensures
        rows_distinct(rows.update(at, row)),
        rows_map(rows.update(at, row)) == rows_map(rows).insert(
            row.path.deep_view(),
            row_view(row),
        ),
{
    let changed = rows.update(at, row);
    assert(rows_distinct(changed)) by {
        assert forall|i: int, j: int| 0 <= i < j < changed.len() implies (
        #[trigger] changed[i]).path.deep_view() != (#[trigger] changed[j]).path.deep_view() by {
            assert(rows[i].path.deep_view() != rows[j].path.deep_view());
        }
    }
    let target = rows_map(rows).insert(row.path.deep_view(), row_view(row));
    assert forall|path: Seq<Seq<char>>| rows_map(changed).dom().contains(path)
        <==> target.dom().contains(path) by {
        if rows_map(changed).dom().contains(path) {
            let i = choose|i: int| row_at(changed, path, i);
            assert(row_at(rows, path, i));
        }
        if target.dom().contains(path) {
            if path == row.path.deep_view() {
                assert(row_at(changed, path, at));
            } else {
                let i = choose|i: int| row_at(rows, path, i);
                assert(row_at(changed, path, i));
            }
        }
    }
    assert forall|path: Seq<Seq<char>>| rows_map(changed).dom().contains(path) implies rows_map(
        changed,
    )[path] == target[path] by {
        let i = choose|i: int| row_at(changed, path, i);
        lemma_row(changed, i);
        if i != at {
            lemma_row(rows, i);
        }
    }
    assert(rows_map(changed) =~= target);
}

/// Taking a row out with `swap_remove` and pushing it back, changed but for
/// its path, amounts to changing it in place.
proof fn lemma_restored(before: Seq<CacheRow>, at: int, row: CacheRow)
    requires
        rows_distinct(before),
        0 <= at < before.len(),
        row.path.deep_view() == before[at].path.deep_view(),
    ensures
        rows_distinct(before.update(at, before.last()).drop_last().push(row)),
        rows_map(before.update(at, before.last()).drop_last().push(row)) == rows_map(
            before,
        ).insert(row.path.deep_view(), row_view(row)),
{
    let rest = before.update(at, before.last()).drop_last();
    assert(rows_distinct(rest)) by {
        assert forall|i: int, j: int| 0 <= i < j < rest.len() implies (
        #[trigger] rest[i]).path.deep_view() != (#[trigger] rest[j]).path.deep_view() by {
            let a = if i == at {
                before.len() - 1
            } else {
                i
            };
            let b = if j == at {
                before.len() - 1
            } else {
                j
            };
            assert(rest[i] == before[a] && rest[j] == before[b]);
            if a < b {
                assert(before[a].path.deep_view() != before[b].path.deep_view());
            } else {
                assert(before[b].path.deep_view() != before[a].path.deep_view());
            }
        }
    }
    assert forall|i: int| 0 <= i < rest.len() implies (#[trigger] rest[i]).path.deep_view()
        != row.path.deep_view() by {
        if i == at {
            assert(rest[i] == before.last());
            assert(before[at].path.deep_view() != before[before.len() - 1].path.deep_view());
        } else {
            assert(rest[i] == before[i]);
            if i < at {
                assert(before[i].path.deep_view() != before[at].path.deep_view());
            } else {
                assert(before[at].path.deep_view() != before[i].path.deep_view());
            }
        }
    }
    lemma_pushed(rest, row);
    lemma_updated(before, at, row);
    let after = rest.push(row);
    let changed = before.update(at, row);
    assert forall|path: Seq<Seq<char>>| rows_map(after).dom().contains(path) <==> rows_map(
        changed,
    ).dom().contains(path) by {
        if rows_map(after).dom().contains(path) {
            let i = choose|i: int| row_at(after, path, i);
            if i == rest.len() {
                assert(row_at(changed, path, at));
            } else if i == at {
                assert(row_at(changed, path, before.len() - 1));
            } else {
                assert(row_at(changed, path, i));
            }
        }
        if rows_map(changed).dom().contains(path) {
            let i = choose|i: int| row_at(changed, path, i);
            if i == at {
                assert(row_at(after, path, rest.len() as int));
            } else if i == before.len() - 1 {
                assert(row_at(after, path, at));
            } else {
                assert(row_at(after, path, i));
            }
        }
    }
    assert forall|path: Seq<Seq<char>>| rows_map(after).dom().contains(path) implies rows_map(
        after,
    )[path] == rows_map(changed)[path] by {
        let i = choose|i: int| row_at(after, path, i);
        lemma_row(after, i);
        if i == rest.len() {
            lemma_row(changed, at);
        } else if i == at {
            lemma_row(changed, before.len() - 1);
        } else {
            lemma_row(changed, i);
        }
    }
    assert(rows_map(after) =~= rows_map(changed));
}

impl View for CacheIndex {
    type V = CacheView;

    closed spec fn view(&self) -> CacheView {
        rows_map(self.rows@)
    }
}

/// Whether the metadata record of a benchmark is to be read, and why.
#[derive(Clone, Copy, Debug, PartialEq, Eq, Structural)]
pub enum MetadataAction {
    /// The cache has no row for the benchmark: read the record and insert one.
    Insert,
    /// The record was modified after the cache last saw it: read it again and
    /// overwrite the row.
    Overwrite,
    /// The record is no newer than the row: leave both alone.
    Keep,
}

/// What a pass has to do for one unit.
#[derive(Debug)]
pub struct UnitPlan {
    pub metadata: MetadataAction,
    /// Positions, among the unit's measurements, of those to read and insert.
    pub new_measurements: Vec<usize>,
}

/// Mathematical content of a [`UnitPlan`].
pub struct PlanView {
    pub metadata: MetadataAction,
    pub new_measurements: Seq<int>,
}

impl View for UnitPlan {
    type V = PlanView;

    open spec fn view(&self) -> PlanView {
        PlanView {
            metadata: self.metadata,
            new_measurements: self.new_measurements@.map_values(|p: usize| p as int),
        }
    }
}

/// Names of a unit's measurement files, in walk order.
pub open spec fn unit_names(unit: UnitView) -> Seq<Seq<char>> {
    unit.measurements.map_values(|entry: EntryView| entry.name())
}

/// The measurement files of a benchmark that the cache holds; none where it
/// has no row for the benchmark.
pub open spec fn known_measurements(
    index: CacheView,
    path: Seq<Seq<char>>,
) -> Set<Seq<char>> {
    if index.dom().contains(path) {
        index[path].measurements
    } else {
        Set::empty()
    }
}

/// What to do about a metadata record that was last modified at `modified`.
/// A record is read again only where it is strictly newer than the row.
pub open spec fn metadata_action(
    index: CacheView,
    path: Seq<Seq<char>>,
    modified: ModTime,
) -> MetadataAction {
    if !index.dom().contains(path) {
        MetadataAction::Insert
    } else if modified.later_than(index[path].modified) {
        MetadataAction::Overwrite
    } else {
        MetadataAction::Keep
    }
}

/// Positions below `upto`, in rising order, of the names that `known` lacks.
pub open spec fn unknown_positions(names: Seq<Seq<char>>, known: Set<Seq<char>>, upto: int) -> Seq<
    int,
>
    decreases upto,
{
    if upto <= 0 {
        Seq::empty()
    } else if known.contains(names[upto - 1]) {
        unknown_positions(names, known, upto - 1)
    } else {
        unknown_positions(names, known, upto - 1).push(upto - 1)
    }
}

/// The plan for a unit whose metadata record was last modified at
/// `modified`.
pub open spec fn planned(index: CacheView, unit: UnitView, modified: ModTime) -> PlanView {
    PlanView {
        metadata: metadata_action(index, unit.path, modified),
        new_measurements: unknown_positions(
            unit_names(unit),
            known_measurements(index, unit.path),
            unit.measurements.len() as int,
        ),
    }
}

/// The index once the plan for a unit has been carried out: the row of the
/// unit's path holds every measurement it held and every one that the unit
/// has, and the newer of the two modification times.
pub open spec fn committed(
    index: CacheView,
    unit: UnitView,
    modified: ModTime,
) -> CacheView {
    index.insert(
        unit.path,
        RowView {
            modified: if metadata_action(index, unit.path, modified) == MetadataAction::Keep {
                index[unit.path].modified
            } else {
                modified
            },
            measurements: known_measurements(index, unit.path).union(unit_names(unit).to_set()),
        },
    )
}

/// A unit that the walk yielded, and when its metadata record was last
/// modified on disk.
#[derive(Debug)]
pub struct Observation {
    pub unit: Benchmark,
    pub modified: ModTime,
}

/// The index after the plans for these units have been carried out, one
/// after the other.
pub open spec fn index_after(index: CacheView, seen: Seq<Observation>) -> CacheView
    decreases seen.len(),
{
    if seen.len() == 0 {
        index
    } else {
        committed(index_after(index, seen.drop_last()), seen.last().unit@, seen.last().modified)
    }
}

/// The units that a walk yielded before its first error.
pub open spec fn seen_before_failure(items: Seq<Result<Observation, WalkError>>) -> Seq<
    Observation,
>
    decreases items.len(),
{
    if items.len() == 0 {
        Seq::empty()
    } else {
        match items[0] {
            Ok(observation) => seq![observation] + seen_before_failure(items.drop_first()),
            Err(_) => Seq::empty(),
        }
    }
}

/// The first error that a walk yielded.
pub open spec fn first_failure(items: Seq<Result<Observation, WalkError>>) -> Option<WalkFault>
    decreases items.len(),
{
    if items.len() == 0 {
        None
    } else {
        match items[0] {
            Ok(_) => first_failure(items.drop_first()),
            Err(error) => Some(error@),
        }
    }
}

/// Names of the directories and the file that lead from the root of a Cargo
/// project to the cache.
pub fn database_below_cargo_root() -> (below: Vec<String>)
    ensures
        below.deep_view() == seq![BUILD_DIR@, TOOL_DIR@, DATABASE_FILE@],
{
    let mut below: Vec<String> = Vec::new();
    below.push(String::from_str(BUILD_DIR));
    below.push(String::from_str(TOOL_DIR));
    below.push(String::from_str(DATABASE_FILE));
    assert(below.deep_view() == seq![BUILD_DIR@, TOOL_DIR@, DATABASE_FILE@]);
    below
}

/// Whether a list of names holds `name`.
fn holds_name(names: &Vec<String>, name: &str) -> (held: bool)
    ensures
        held == names.deep_view().contains(name@),
{
    let mut i: usize = 0;
    while i < names.len()
        invariant
            i <= names.len(),
            forall|k: int| 0 <= k < i ==> names.deep_view()[k] != name@,
        decreases names.len() - i,
    {
        if same_text(names[i].as_str(), name) {
            assert(names.deep_view()[i as int] == name@);
            return true;
        }
        i += 1;
    }
    false
}

impl CacheIndex {
    #[verifier::type_invariant]
    spec fn inv(self) -> bool {
        rows_distinct(self.rows@)
    }

    /// An index of a cache that holds nothing.
    pub fn new() -> (index: Self)
        ensures
            index@ == CacheView::empty(),
    {
        let index = CacheIndex { rows: Vec::new() };
        assert(index@ =~= CacheView::empty()) by {
            assert forall|path: Seq<Seq<char>>| !rows_map(index.rows@).dom().contains(path) by {
                lemma_absent(index.rows@, path);
            }
        }
        index
    }

    /// Position of the row with this path.
    fn find(&self, path: &Vec<String>) -> (found: Option<usize>)
        ensures
            match found {
                Some(i) => row_at(self.rows@, path.deep_view(), i as int),
                None => forall|i: int|
                    0 <= i < self.rows@.len() ==> (#[trigger] self.rows@[i]).path.deep_view()
                        != path.deep_view(),
            },
    {
        let mut i: usize = 0;
        while i < self.rows.len()
            invariant
                i <= self.rows.len(),
                forall|k: int|
                    0 <= k < i ==> (#[trigger] self.rows@[k]).path.deep_view() != path.deep_view(),
            decreases self.rows.len() - i,
        {
            if same_path(&self.rows[i].path, path) {
                return Some(i);
            }
            i += 1;
        }
        None
    }

    /// Whether the cache has a row for the benchmark at `path`.
    pub fn contains(&self, path: &Vec<String>) -> (known: bool)
        ensures
            known == self@.dom().contains(path.deep_view()),
    {
        proof {
            use_type_invariant(self);
        }
        match self.find(path) {
            Some(i) => {
                proof {
                    lemma_row(self.rows@, i as int);
                }
                true
            },
            None => {
                proof {
                    lemma_absent(self.rows@, path.deep_view());
                }
                false
            },
        }
    }

    /// When the cache last saw the metadata record at `path` modified.
    pub fn modified(&self, path: &Vec<String>) -> (modified: Option<ModTime>)
        ensures
            match modified {
                Some(at) => self@.dom().contains(path.deep_view())
                    && self@[path.deep_view()].modified == at,
                None => !self@.dom().contains(path.deep_view()),
            },
    {
        proof {
            use_type_invariant(self);
        }
        match self.find(path) {
            Some(i) => {
                proof {
                    lemma_row(self.rows@, i as int);
                }
                Some(self.rows[i].modified)
            },
            None => {
                proof {
                    lemma_absent(self.rows@, path.deep_view());
                }
                None
            },
        }
    }

    /// Whether the cache holds the measurement file `name` of the benchmark
    /// at `path`.
    pub fn holds_measurement(&self, path: &Vec<String>, name: &str) -> (held: bool)
        ensures
            held == known_measurements(self@, path.deep_view()).contains(name@),
    {
        proof {
            use_type_invariant(self);
        }
        match self.find(path) {
            Some(i) => {
                proof {
                    lemma_row(self.rows@, i as int);
                }
                holds_name(&self.rows[i].measurements, name)
            },
            None => {
                proof {
                    lemma_absent(self.rows@, path.deep_view());
                }
                false
            },
        }
    }

    /// Takes in a benchmark row of the cache, with no measurements yet.
    pub fn record_benchmark(&mut self, path: Vec<String>, modified: ModTime) -> (outcome: Result<
        (),
        SchemaError,
    >)
        ensures
            match outcome {
                Ok(_) => !old(self)@.dom().contains(path.deep_view()) && final(self)@ == old(
                    self,
                )@.insert(
                    path.deep_view(),
                    RowView { modified, measurements: Set::<Seq<char>>::empty() },
                ),
                Err(error) => old(self)@.dom().contains(path.deep_view()) && final(self)@ == old(
                    self,
                )@ && error == SchemaError::DuplicateBenchmark,
            },
    {
        proof {
            use_type_invariant(&*self);
        }
        match self.find(&path) {
            Some(i) => {
                proof {
                    lemma_row(self.rows@, i as int);
                }
                Err(SchemaError::DuplicateBenchmark)
            },
            None => {
                let row = CacheRow { path, modified, measurements: Vec::new() };
                proof {
                    lemma_absent(self.rows@, path.deep_view());
                    lemma_pushed(self.rows@, row);
                    assert(row.measurements.deep_view().to_set() =~= Set::<Seq<char>>::empty());
                }
                let mut rows: Vec<CacheRow> = Vec::new();
                std::mem::swap(&mut rows, &mut self.rows);
                rows.push(row);
                self.rows = rows;
                Ok(())
            },
        }
    }

    /// Takes in a benchmark row of the cache as it is stored, with the
    /// modification time in the notation of RFC 3339.
    pub fn load_benchmark(&mut self, path: Vec<String>, modified: &str) -> (outcome: Result<
        (),
        SchemaError,
    >)
        ensures
            match (rfc3339_instant(modified@), outcome) {
                (None, Err(error)) => error == SchemaError::BadModified && final(self)@ == old(
                    self,
                )@,
                (Some(at), Err(error)) => error == SchemaError::DuplicateBenchmark && old(
                    self,
                )@.dom().contains(path.deep_view()) && final(self)@ == old(self)@,
                (Some(at), Ok(_)) => !old(self)@.dom().contains(path.deep_view()) && final(self)@
                    == old(self)@.insert(
                    path.deep_view(),
                    RowView { modified: at, measurements: Set::<Seq<char>>::empty() },
                ),
                (None, Ok(_)) => false,
            },
    {
        match parse_rfc3339(modified) {
            Some(at) => self.record_benchmark(path, at),
            None => Err(SchemaError::BadModified),
        }
    }

    /// Takes in a measurement row of the cache.
    pub fn load_measurement(&mut self, path: &Vec<String>, name: String) -> (outcome: Result<
        (),
        SchemaError,
    >)
        ensures
            match outcome {
                Ok(_) => old(self)@.dom().contains(path.deep_view()) && !old(
                    self,
                )@[path.deep_view()].measurements.contains(name@) && final(self)@ == old(
                    self,
                )@.insert(
                    path.deep_view(),
                    RowView {
                        modified: old(self)@[path.deep_view()].modified,
                        measurements: old(self)@[path.deep_view()].measurements.insert(name@),
                    },
                ),
                Err(error) => final(self)@ == old(self)@ && if old(self)@.dom().contains(
                    path.deep_view(),
                ) {
                    error == SchemaError::DuplicateMeasurement && old(
                        self,
                    )@[path.deep_view()].measurements.contains(name@)
                } else {
                    error == SchemaError::OrphanMeasurement
                },
            },
    {
        proof {
            use_type_invariant(&*self);
        }
        match self.find(path) {
            None => {
                proof {
                    lemma_absent(self.rows@, path.deep_view());
                }
                Err(SchemaError::OrphanMeasurement)
            },
            Some(i) => {
                proof {
                    lemma_row(self.rows@, i as int);
                }
                if holds_name(&self.rows[i].measurements, name.as_str()) {
                    return Err(SchemaError::DuplicateMeasurement);
                }
                let ghost before = self.rows@;
                let mut rows: Vec<CacheRow> = Vec::new();
                std::mem::swap(&mut rows, &mut self.rows);
                let mut row = rows.swap_remove(i);
                row.measurements.push(name);
                proof {
                    let held = before[i as int].measurements.deep_view();
                    assert(row.measurements.deep_view() == held.push(name@));
                    held.lemma_push_to_set_commute(name@);
                }
                proof {
                    lemma_restored(before, i as int, row);
                }
                rows.push(row);
                self.rows = rows;
                Ok(())
            },
        }
    }

    /// What a pass has to read and write for a unit whose metadata record was
    /// last modified at `modified`.
    pub fn plan(&self, unit: &Benchmark, modified: ModTime) -> (plan: UnitPlan)
        ensures
            plan@ == planned(self@, unit@, modified),
    {
        proof {
            use_type_invariant(self);
        }
        let path = unit.path_from_data_root();
        let entries = unit.measurement_entries();
        let row = self.find(path);
        let metadata = match row {
            None => {
                proof {
                    lemma_absent(self.rows@, path.deep_view());
                }
                MetadataAction::Insert
            },
            Some(i) => {
                proof {
                    lemma_row(self.rows@, i as int);
                }
                if modified.is_later_than(&self.rows[i].modified) {
                    MetadataAction::Overwrite
                } else {
                    MetadataAction::Keep
                }
            },
        };
        let ghost names = unit_names(unit@);
        let ghost known = known_measurements(self@, unit@.path);
        let mut new_measurements: Vec<usize> = Vec::new();
        let mut k: usize = 0;
        while k < entries.len()
            invariant
                k <= entries.len(),
                entries.deep_view() == unit@.measurements,
                names == unit_names(unit@),
                match row {
                    Some(i) => i < self.rows.len() && known == row_view(
                        self.rows@[i as int],
                    ).measurements,
                    None => known == Set::<Seq<char>>::empty(),
                },
                new_measurements@.map_values(|p: usize| p as int) == unknown_positions(
                    names,
                    known,
                    k as int,
                ),
            decreases entries.len() - k,
        {
            let name = entries[k].file_name();
            assert(names[k as int] == entries.deep_view()[k as int].name());
            let held = match row {
                Some(i) => holds_name(&self.rows[i].measurements, name),
                None => false,
            };
            if !held {
                let ghost before = new_measurements@.map_values(|p: usize| p as int);
                new_measurements.push(k);
                assert(new_measurements@.map_values(|p: usize| p as int) == before.push(k as int));
            }
            k += 1;
        }
        UnitPlan { metadata, new_measurements }
    }

    /// Records that the plan for a unit has been carried out.
    pub fn commit(&mut self, unit: &Benchmark, modified: ModTime)
        ensures
            final(self)@ == committed(old(self)@, unit@, modified),
    {
        proof {
            use_type_invariant(&*self);
        }
        let path = unit.path_from_data_root();
        let entries = unit.measurement_entries();
        let ghost before = self.rows@;
        let ghost names = unit_names(unit@);
        let found = self.find(path);
        let mut rows: Vec<CacheRow> = Vec::new();
        std::mem::swap(&mut rows, &mut self.rows);
        let mut row = match found {
            Some(i) => {
                proof {
                    lemma_row(before, i as int);
                }
                let mut row = rows.swap_remove(i);
                if modified.is_later_than(&row.modified) {
                    row.modified = modified;
                }
                row
            },
            None => {
                proof {
                    lemma_absent(before, path.deep_view());
                }
                let row = CacheRow { path: copy_path(path), modified, measurements: Vec::new() };
                assert(row.measurements.deep_view().to_set() =~= Set::<Seq<char>>::empty());
                row
            },
        };
        let ghost held = row.measurements.deep_view().to_set();
        assert(held == known_measurements(rows_map(before), unit@.path));
        assert(names.take(0).to_set() =~= Set::<Seq<char>>::empty());
        assert(held.union(names.take(0).to_set()) =~= held);
        let mut k: usize = 0;
        while k < entries.len()
            invariant
                k <= entries.len(),
                entries.deep_view() == unit@.measurements,
                names == unit_names(unit@),
                row.path.deep_view() == path.deep_view(),
                row.modified == (if metadata_action(rows_map(before), unit@.path, modified)
                    == MetadataAction::Keep {
                    rows_map(before)[unit@.path].modified
                } else {
                    modified
                }),
                row.measurements.deep_view().to_set() == held.union(names.take(k as int).to_set()),
            decreases entries.len() - k,
        {
            let name = entries[k].file_name();
            assert(names[k as int] == entries.deep_view()[k as int].name());
            proof {
                assert(names.take(k + 1) == names.take(k as int).push(names[k as int]));
                names.take(k as int).lemma_push_to_set_commute(names[k as int]);
            }
            if !holds_name(&row.measurements, name) {
                proof {
                    row.measurements.deep_view().lemma_push_to_set_commute(name@);
                }
                let ghost list = row.measurements.deep_view();
                row.measurements.push(String::from_str(name));
                assert(row.measurements.deep_view() == list.push(name@));
                assert(row.measurements.deep_view().to_set() =~= held.union(
                    names.take(k + 1).to_set(),
                ));
            } else {
                assert(row.measurements.deep_view().to_set() =~= held.union(
                    names.take(k + 1).to_set(),
                ));
            }
            k += 1;
        }
        proof {
            assert(names.take(entries.len() as int) == names);
            match found {
                Some(i) => {
                    lemma_restored(before, i as int, row);
                },
                None => {
                    lemma_pushed(before, row);
                },
            }
        }
        rows.push(row);
        self.rows = rows;
    }

    /// Visits a unit: plans what has to be read and written for it, and
    /// records the plan as carried out.
    pub fn visit(&mut self, unit: &Benchmark, modified: ModTime) -> (plan: UnitPlan)
        ensures
            plan@ == planned(old(self)@, unit@, modified),
            final(self)@ == committed(old(self)@, unit@, modified),
    {
        let plan = self.plan(unit, modified);
        self.commit(unit, modified);
        plan
    }

    /// Runs a whole pass over what the walk yielded: visits the units in
    /// order and stops at the first error, which it returns in place of the
    /// plans. The units before the error stay visited.
    pub fn synchronize(&mut self, items: Vec<Result<Observation, WalkError>>) -> (outcome: Result<
        Vec<UnitPlan>,
        WalkError,
    >)
        ensures
            final(self)@ == index_after(old(self)@, seen_before_failure(items@)),
            match outcome {
                Ok(plans) => first_failure(items@) is None && plans.len() == items.len()
                    && forall|i: int|
                    0 <= i < plans.len() ==> (#[trigger] plans[i])@ == planned(
                        index_after(old(self)@, seen_before_failure(items@).take(i)),
                        seen_before_failure(items@)[i].unit@,
                        seen_before_failure(items@)[i].modified,
                    ),
                Err(error) => first_failure(items@) == Some(error@),
            },
    {
        let ghost start = self@;
        let ghost all = items@;
        let ghost mut seen: Seq<Observation> = Seq::empty();
        let mut plans: Vec<UnitPlan> = Vec::new();
        assert(all.skip(0) == all);
        for item in it: items
            invariant
                it.seq() == all,
                all == items@,
                start == old(self)@,
                seen.len() == it.index(),
                plans.len() == it.index(),
                self@ == index_after(start, seen),
                seen + seen_before_failure(all.skip(it.index())) == seen_before_failure(all),
                first_failure(all.skip(it.index())) == first_failure(all),
                forall|i: int|
                    0 <= i < plans.len() ==> (#[trigger] plans[i])@ == planned(
                        index_after(start, seen.take(i)),
                        seen[i].unit@,
                        seen[i].modified,
                    ),
        {
            let ghost rest = all.skip(it.index());
            assert(rest[0] == item);
            assert(rest.drop_first() == all.skip(it.index() + 1));
            match item {
                Err(error) => {
                    assert(seen_before_failure(rest) == Seq::<Observation>::empty());
                    assert(seen + Seq::<Observation>::empty() == seen);
                    return Err(error);
                },
                Ok(observation) => {
                    let plan = self.visit(&observation.unit, observation.modified);
                    plans.push(plan);
                    proof {
                        let more = seen.push(observation);
                        assert(more.drop_last() == seen);
                        assert(more.take(seen.len() as int) == seen);
                        assert forall|i: int| 0 <= i < seen.len() implies more.take(i) == seen.take(
                            i,
                        ) by {}
                        assert(more + seen_before_failure(rest.drop_first()) == seen + (seq![
                            observation,
                        ] + seen_before_failure(rest.drop_first())));
                        seen = more;
                    }
                },
            }
        }
        proof {
            assert(all.skip(all.len() as int).len() == 0);
            assert(seen + Seq::<Observation>::empty() == seen);
        }
        Ok(plans)
    }
}

} // verus!
