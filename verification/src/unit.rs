//! Benchmark units: the records that one leaf directory holds, checked against
//! the layout that the benchmarking tool promises.

use vstd::prelude::*;
use crate::entry::{DirectoryEntry, EntryView};
use crate::path::copy_path;
use crate::stamp::{
    measurement_stamp, parse_measurement_datetime, LocalStamp, MEASUREMENT_PREFIX,
};
use crate::text::{precedes, same_text};

verus! {

/// Name of the metadata record in every benchmark directory.
pub const METADATA_FILE_NAME: &'static str = "benchmark.cbor";

/// The ways in which a tree can break the layout.
#[derive(Clone, Copy, Debug, PartialEq, Eq, Structural)]
pub enum ViolationKind {
    /// An entry is a symbolic link.
    Symlink,
    /// An entry is neither a file nor a directory.
    NotFileOrDirectory,
    /// The data root itself was reported as an entry.
    RootEntry,
    /// The file that sorts last in a directory is not the metadata record.
    UnexpectedMetadata,
    /// A directory holds a metadata record and no measurement.
    NoMeasurements,
    /// A file beside the metadata record is not a measurement of that
    /// directory with a stamp in its name.
    UnexpectedMeasurement,
}

/// A breach of the layout and the entry at which it was found.
#[derive(Debug)]
pub struct LayoutViolation {
    pub kind: ViolationKind,
    pub path: Vec<String>,
}

/// Mathematical content of a [`LayoutViolation`].
pub struct ViolationView {
    pub kind: ViolationKind,
    pub path: Seq<Seq<char>>,
}

impl View for LayoutViolation {
    type V = ViolationView;

    open spec fn view(&self) -> ViolationView {
        ViolationView { kind: self.kind, path: self.path.deep_view() }
    }
}

/// Mathematical content of a [`Benchmark`].
pub struct UnitView {
    /// Path of the benchmark's directory below the data root.
    pub path: Seq<Seq<char>>,
    pub metadata: EntryView,
    /// Measurement files in the order in which the walk met them.
    pub measurements: Seq<EntryView>,
    /// Date and time at which each measurement was taken.
    pub stamps: Seq<LocalStamp>,
}

/// `entry` can be the metadata record of a unit.
pub open spec fn is_metadata(entry: EntryView) -> bool {
    entry.is_plain_file() && entry.name() == METADATA_FILE_NAME@
}

/// `entry` is a plain file in the directory of `metadata`.
pub open spec fn is_beside(entry: EntryView, metadata: EntryView) -> bool {
    &&& entry.is_plain_file()
    &&& entry.depth() == metadata.depth()
    &&& entry.parent() == metadata.parent()
}

/// `entry` can be a measurement of the unit whose metadata record is
/// `metadata`: it lies beside the record and has a stamp in its name.
pub open spec fn is_measurement_of(entry: EntryView, metadata: EntryView) -> bool {
    is_beside(entry, metadata) && measurement_stamp(entry.name()) is Some
}

impl UnitView {
    /// The invariant of a unit: one metadata record under its fixed name, at
    /// least one measurement, all of them plain files of the unit's
    /// directory, and a stamp for each measurement.
    pub open spec fn wf(self) -> bool {
        &&& is_metadata(self.metadata)
        &&& self.path == self.metadata.parent()
        &&& self.measurements.len() > 0
        &&& self.stamps.len() == self.measurements.len()
        &&& forall|i: int|
            0 <= i < self.measurements.len() ==> is_beside(
                #[trigger] self.measurements[i],
                self.metadata,
            )
    }

    /// The stamp of each measurement is the one that its file's name holds.
    pub open spec fn stamped_by_name(self) -> bool {
        forall|i: int|
            0 <= i < self.measurements.len() ==> measurement_stamp(
                (#[trigger] self.measurements[i]).name(),
            ) == Some(self.stamps[i])
    }
}

/// The stamp that was found for the file at `i`, if any.
pub open spec fn stamp_at(stamps: Seq<Option<LocalStamp>>, i: int) -> Option<LocalStamp> {
    if 0 <= i < stamps.len() {
        stamps[i]
    } else {
        None
    }
}

/// Position of the first entry at or after `from` that cannot be a
/// measurement beside `metadata`: it is no plain file of that directory, or
/// no stamp was found for it.
pub open spec fn first_stranger(
    measurements: Seq<EntryView>,
    stamps: Seq<Option<LocalStamp>>,
    metadata: EntryView,
    from: int,
) -> Option<int>
    decreases measurements.len() - from,
{
    if from < 0 || from >= measurements.len() {
        None
    } else if !is_beside(measurements[from], metadata) || stamp_at(stamps, from) is None {
        Some(from)
    } else {
        first_stranger(measurements, stamps, metadata, from + 1)
    }
}

/// The unit that a metadata record and the files met before it form, given
/// the stamp found for each of those files, or the first breach of the
/// layout among them.
pub open spec fn unit_from(
    metadata: EntryView,
    measurements: Seq<EntryView>,
    stamps: Seq<Option<LocalStamp>>,
) -> Result<UnitView, ViolationView> {
    if !is_metadata(metadata) {
        Err(ViolationView { kind: ViolationKind::UnexpectedMetadata, path: metadata.path })
    } else if measurements.len() == 0 {
        Err(ViolationView { kind: ViolationKind::NoMeasurements, path: metadata.path })
    } else {
        match first_stranger(measurements, stamps, metadata, 0) {
            Some(i) => Err(
                ViolationView {
                    kind: ViolationKind::UnexpectedMeasurement,
                    path: measurements[i].path,
                },
            ),
            None => Ok(
                UnitView {
                    path: metadata.parent(),
                    metadata,
                    measurements,
                    stamps: Seq::new(measurements.len(), |i: int| stamp_at(stamps, i)->0),
                },
            ),
        }
    }
}

/// The stamp that the name of each file holds.
pub open spec fn name_stamps(measurements: Seq<EntryView>) -> Seq<Option<LocalStamp>> {
    measurements.map_values(|entry: EntryView| measurement_stamp(entry.name()))
}

/// The unit that a metadata record and the files met before it form, each
/// measurement stamped by its name, or the first breach of the layout among
/// them.
pub open spec fn unit_of(metadata: EntryView, measurements: Seq<EntryView>) -> Result<
    UnitView,
    ViolationView,
> {
    unit_from(metadata, measurements, name_stamps(measurements))
}

/// Where no stranger is found from `from` on, every entry from there on lies
/// beside the metadata record and has a stamp.
pub proof fn lemma_no_stranger(
    measurements: Seq<EntryView>,
    stamps: Seq<Option<LocalStamp>>,
    metadata: EntryView,
    from: int,
)
    requires
        0 <= from,
        first_stranger(measurements, stamps, metadata, from) is None,
    ensures
        forall|i: int|
            from <= i < measurements.len() ==> is_beside(#[trigger] measurements[i], metadata)
                && stamp_at(stamps, i) is Some,
    decreases measurements.len() - from,
{
    if from < measurements.len() {
        lemma_no_stranger(measurements, stamps, metadata, from + 1);
    }
}

/// Every unit that is formed keeps the invariant, and holds the entries and
/// the stamps that it was formed from.
pub proof fn lemma_unit_well_formed(
    metadata: EntryView,
    measurements: Seq<EntryView>,
    stamps: Seq<Option<LocalStamp>>,
)
    ensures
        unit_from(metadata, measurements, stamps) matches Ok(unit) ==> unit.wf() && unit.metadata
            == metadata && unit.measurements == measurements && forall|i: int|
            0 <= i < measurements.len() ==> stamp_at(stamps, i) == Some(#[trigger] unit.stamps[i]),
{
    if let Ok(unit) = unit_from(metadata, measurements, stamps) {
        lemma_no_stranger(measurements, stamps, metadata, 0);
        assert forall|i: int| 0 <= i < measurements.len() implies stamp_at(stamps, i) == Some(
            #[trigger] unit.stamps[i],
        ) by {
            assert(is_beside(measurements[i], metadata));
        }
    }
}

/// Every unit that is formed from files and their names keeps the invariant
/// and gives each measurement the stamp in its name.
pub proof fn lemma_unit_stamped_by_name(metadata: EntryView, measurements: Seq<EntryView>)
    ensures
        unit_of(metadata, measurements) matches Ok(unit) ==> unit.wf() && unit.stamped_by_name(),
{
    lemma_unit_well_formed(metadata, measurements, name_stamps(measurements));
}

/// A measurement file is never taken for the metadata record: its name
/// differs from that of the record and sorts after it.
pub proof fn lemma_measurement_sorts_after_metadata(name: Seq<char>)
    requires
        measurement_stamp(name) is Some,
    ensures
        name != METADATA_FILE_NAME@,
        precedes(METADATA_FILE_NAME@, name),
{
    reveal_strlit("benchmark.cbor");
    reveal_strlit("measurement_");
    reveal_strlit(".cbor");
    let prefix = MEASUREMENT_PREFIX@;
    assert(name.take(prefix.len() as int) == prefix);
    assert(name[0] == name.take(prefix.len() as int)[0]);
    assert(name[0] == 'm');
    assert(METADATA_FILE_NAME@[0] == 'b');
    assert(METADATA_FILE_NAME@.take(0) =~= name.take(0));
}

/// Benchmark for which the tool has recorded data.
#[derive(Debug)]
pub struct Benchmark {
    path_from_data_root: Vec<String>,
    metadata: DirectoryEntry,
    measurements: Vec<DirectoryEntry>,
    stamps: Vec<LocalStamp>,
}

impl View for Benchmark {
    type V = UnitView;

    closed spec fn view(&self) -> UnitView {
        UnitView {
            path: self.path_from_data_root.deep_view(),
            metadata: self.metadata@,
            measurements: self.measurements.deep_view(),
            stamps: self.stamps@,
        }
    }
}

/// One measurement of a benchmark.
#[derive(Debug)]
pub struct Measurement<'parent> {
    entry: &'parent DirectoryEntry,
    taken: LocalStamp,
}

impl<'parent> View for Measurement<'parent> {
    type V = EntryView;

    closed spec fn view(&self) -> EntryView {
        self.entry@
    }
}

impl<'parent> Measurement<'parent> {
    #[verifier::type_invariant]
    spec fn inv(self) -> bool {
        self.entry@.is_plain_file()
    }

    /// Date and time at which the measurement was taken.
    pub closed spec fn stamp(self) -> LocalStamp {
        self.taken
    }

    /// Accepts a plain file with a stamp in its name.
    pub fn new(entry: &'parent DirectoryEntry) -> (measurement: Option<Self>)
        ensures
            match measurement {
                Some(m) => m@ == entry@ && entry@.is_plain_file() && measurement_stamp(
                    entry@.name(),
                ) == Some(m.stamp()),
                None => !(entry@.is_plain_file() && measurement_stamp(entry@.name()) is Some),
            },
    {
        if !entry.is_file() || entry.symlink || entry.depth() == 0 {
            return None;
        }
        match parse_measurement_datetime(entry.file_name()) {
            Some(taken) => Some(Measurement { entry, taken }),
            None => None,
        }
    }

    /// The file that holds the measurement.
    pub fn entry(&self) -> (entry: &'parent DirectoryEntry)
        ensures
            entry@ == self@,
            self@.is_plain_file(),
    {
        proof {
            use_type_invariant(self);
        }
        self.entry
    }

    /// Local date and time at which the measurement was taken.
    pub fn local_datetime(&self) -> (stamp: LocalStamp)
        ensures
            stamp == self.stamp(),
    {
        self.taken
    }
}

impl Benchmark {
    #[verifier::type_invariant]
    spec fn inv(self) -> bool {
        self@.wf()
    }

    /// Forms a unit from the metadata record and the files met before it,
    /// given the stamp that was found for each of those files: `None` for a
    /// file whose name holds none, and for a file beyond the end of `stamps`.
    pub fn from_parsed(
        metadata: DirectoryEntry,
        measurements: Vec<DirectoryEntry>,
        stamps: Vec<Option<LocalStamp>>,
    ) -> (unit: Result<Benchmark, LayoutViolation>)
        ensures
            match unit {
                Ok(b) => unit_from(metadata@, measurements.deep_view(), stamps@) == Ok::<
                    UnitView,
                    ViolationView,
                >(b@),
                Err(v) => unit_from(metadata@, measurements.deep_view(), stamps@) == Err::<
                    UnitView,
                    ViolationView,
                >(v@),
            },
    {
        let named = same_text(metadata.file_name(), METADATA_FILE_NAME);
        if !metadata.is_file() || metadata.symlink || metadata.depth() == 0 || !named {
            return Err(
                LayoutViolation {
                    kind: ViolationKind::UnexpectedMetadata,
                    path: copy_path(&metadata.path),
                },
            );
        }
        if measurements.len() == 0 {
            return Err(
                LayoutViolation {
                    kind: ViolationKind::NoMeasurements,
                    path: copy_path(&metadata.path),
                },
            );
        }
        let ghost views = measurements.deep_view();
        let mut found: Vec<LocalStamp> = Vec::new();
        let mut i: usize = 0;
        while i < measurements.len()
            invariant
                i <= measurements.len(),
                views == measurements.deep_view(),
                views.len() == measurements.len(),
                is_metadata(metadata@),
                found.len() == i,
                forall|k: int| 0 <= k < i ==> stamp_at(stamps@, k) == Some(#[trigger] found[k]),
                first_stranger(views, stamps@, metadata@, 0) == first_stranger(
                    views,
                    stamps@,
                    metadata@,
                    i as int,
                ),
            decreases measurements.len() - i,
        {
            let entry = &measurements[i];
            assert(views[i as int] == entry@);
            let fits = entry.is_file() && !entry.symlink && entry.same_parent(&metadata);
            assert(fits <==> is_beside(views[i as int], metadata@));
            let stamp = if i < stamps.len() {
                stamps[i]
            } else {
                None
            };
            match stamp {
                Some(stamp) if fits => {
                    found.push(stamp);
                },
                _ => {
                    return Err(
                        LayoutViolation {
                            kind: ViolationKind::UnexpectedMeasurement,
                            path: copy_path(&entry.path),
                        },
                    );
                },
            }
            i += 1;
        }
        proof {
            lemma_no_stranger(views, stamps@, metadata@, 0);
            assert(found@ =~= Seq::new(views.len(), |k: int| stamp_at(stamps@, k)->0));
        }
        let path_from_data_root = metadata.parent_path();
        Ok(Benchmark { path_from_data_root, metadata, measurements, stamps: found })
    }

    /// Forms a unit from the metadata record of a directory and the files met
    /// before it, each measurement stamped by its name, or reports the first
    /// breach of the layout among them.
    pub fn new(metadata: DirectoryEntry, measurements: Vec<DirectoryEntry>) -> (unit: Result<
        Benchmark,
        LayoutViolation,
    >)
        ensures
            match unit {
                Ok(b) => unit_of(metadata@, measurements.deep_view()) == Ok::<
                    UnitView,
                    ViolationView,
                >(b@) && b@.wf() && b@.stamped_by_name(),
                Err(v) => unit_of(metadata@, measurements.deep_view()) == Err::<
                    UnitView,
                    ViolationView,
                >(v@),
            },
    {
        let mut stamps: Vec<Option<LocalStamp>> = Vec::new();
        let mut i: usize = 0;
        while i < measurements.len()
            invariant
                i <= measurements.len(),
                stamps.len() == i,
                forall|k: int|
                    0 <= k < i ==> #[trigger] stamps[k] == measurement_stamp(
                        measurements[k]@.name(),
                    ),
            decreases measurements.len() - i,
        {
            stamps.push(parse_measurement_datetime(measurements[i].file_name()));
            i += 1;
        }
        proof {
            assert(stamps@ =~= name_stamps(measurements.deep_view()));
            lemma_unit_stamped_by_name(metadata@, measurements.deep_view());
        }
        Benchmark::from_parsed(metadata, measurements, stamps)
    }

    /// Path of the benchmark's directory below the data root.
    pub fn path_from_data_root(&self) -> (path: &Vec<String>)
        ensures
            path.deep_view() == self@.path,
            self@.wf(),
    {
        proof {
            use_type_invariant(self);
        }
        &self.path_from_data_root
    }

    /// The file that holds the benchmark's metadata record.
    pub fn metadata_entry(&self) -> (entry: &DirectoryEntry)
        ensures
            entry@ == self@.metadata,
            self@.wf(),
    {
        proof {
            use_type_invariant(self);
        }
        &self.metadata
    }

    /// The files that hold the benchmark's measurements, in walk order.
    pub fn measurement_entries(&self) -> (entries: &Vec<DirectoryEntry>)
        ensures
            entries.deep_view() == self@.measurements,
            self@.wf(),
    {
        proof {
            use_type_invariant(self);
        }
        &self.measurements
    }

    /// The benchmark's measurements, in walk order.
    pub fn measurements(&self) -> (all: Vec<Measurement<'_>>)
        ensures
            self@.wf(),
            all.len() == self@.measurements.len(),
            forall|i: int|
                0 <= i < all.len() ==> (#[trigger] all[i])@ == self@.measurements[i]
                    && all[i].stamp() == self@.stamps[i],
    {
        proof {
            use_type_invariant(self);
        }
        let mut all: Vec<Measurement<'_>> = Vec::new();
        let mut i: usize = 0;
        while i < self.measurements.len()
            invariant
                i <= self.measurements.len(),
                self@.wf(),
                all.len() == i,
                forall|k: int|
                    0 <= k < i ==> (#[trigger] all[k])@ == self@.measurements[k] && all[k].stamp()
                        == self@.stamps[k],
            decreases self.measurements.len() - i,
        {
            assert(self@.measurements[i as int] == self.measurements[i as int]@);
            assert(is_beside(self@.measurements[i as int], self@.metadata));
            all.push(Measurement { entry: &self.measurements[i], taken: self.stamps[i] });
            i += 1;
        }
        all
    }
}

} // verus!
