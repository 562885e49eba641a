//! What holds of every walk: that it is repeatable, that it loses no file,
//! that it yields nothing without a data root, and that it lists the
//! measurements of a benchmark newest first.

use vstd::prelude::*;
use crate::entry::{lemma_walk_order_is_total, walk_precedence, DirectoryEntry, EntryView};
use crate::stamp::measurement_stamp;
use crate::text::{lemma_name_order_reverses, lemma_order_total, precedes, NameOrder};
use crate::unit::{
    first_stranger, is_measurement_of, is_metadata, lemma_measurement_sorts_after_metadata,
    lemma_unit_stamped_by_name, lemma_unit_well_formed, name_stamps, stamp_at, unit_of, UnitView,
    ViolationView, METADATA_FILE_NAME,
};
use crate::walk::{
    continues, flushed, restarted, step, walk_items, yielded, WalkFault,
};

verus! {

/// What the grouping reads of an event of the walk.
pub open spec fn event_view(event: Result<DirectoryEntry, walkdir::Error>) -> Result<
    EntryView,
    walkdir::Error,
> {
    match event {
        Ok(entry) => Ok(entry@),
        Err(failure) => Err(failure),
    }
}

/// The walk is repeatable: two walks that meet entries of the same content in
/// the same order yield the same units and errors.
pub proof fn lemma_walk_repeatable(
    no_data: bool,
    files: Seq<EntryView>,
    first: Seq<Result<DirectoryEntry, walkdir::Error>>,
    second: Seq<Result<DirectoryEntry, walkdir::Error>>,
)
    requires
        first.len() == second.len(),
        forall|i: int| 0 <= i < first.len() ==> event_view(first[i]) == event_view(second[i]),
    ensures
        walk_items(no_data, files, first) == walk_items(no_data, files, second),
    decreases first.len(),
{
    if first.len() > 0 {
        assert(event_view(first[0]) == event_view(second[0]));
        let next = step(no_data, files, Some(first[0]));
        assert(next == step(no_data, files, Some(second[0])));
        assert forall|i: int| 0 <= i < first.drop_first().len() implies event_view(
            first.drop_first()[i],
        ) == event_view(second.drop_first()[i]) by {
            assert(first.drop_first()[i] == first[i + 1]);
            assert(second.drop_first()[i] == second[i + 1]);
        }
        lemma_walk_repeatable(no_data, next.files, first.drop_first(), second.drop_first());
    }
}

/// The files of a unit in the order in which the walk met them: the
/// measurements, then the metadata record.
pub open spec fn unit_files(unit: UnitView) -> Seq<EntryView> {
    unit.measurements.push(unit.metadata)
}

/// The files of the units among `items`, one unit after the other.
pub open spec fn grouped_files(items: Seq<Result<UnitView, WalkFault>>) -> Seq<EntryView>
    decreases items.len(),
{
    if items.len() == 0 {
        Seq::empty()
    } else {
        (match items[0] {
            Ok(unit) => unit_files(unit),
            Err(_) => Seq::empty(),
        }) + grouped_files(items.drop_first())
    }
}

/// The files among the entries that a walk met, in the order in which it met
/// them.
pub open spec fn met_files(events: Seq<Result<DirectoryEntry, walkdir::Error>>) -> Seq<EntryView>
    decreases events.len(),
{
    if events.len() == 0 {
        Seq::empty()
    } else {
        (match events[0] {
            Ok(entry) => restarted(entry@),
            Err(_) => Seq::empty(),
        }) + met_files(events.drop_first())
    }
}

/// Nothing is lost and nothing is mixed up: where a walk yields no error, the
/// files of its units, one unit after the other, are the files that were
/// accumulated before and the files that the walk met, in that order.
pub proof fn lemma_units_hold_every_file(
    files: Seq<EntryView>,
    events: Seq<Result<DirectoryEntry, walkdir::Error>>,
)
    requires
        forall|i: int|
            0 <= i < walk_items(false, files, events).len() ==> (#[trigger] walk_items(
                false,
                files,
                events,
            )[i]) is Ok,
    ensures
        grouped_files(walk_items(false, files, events)) == files + met_files(events),
    decreases events.len(),
{
    let items = walk_items(false, files, events);
    let none = Seq::<Result<UnitView, WalkFault>>::empty();
    if events.len() == 0 {
        if files.len() == 0 {
            assert(items == none);
            assert(grouped_files(items) =~= files + met_files(events));
        } else {
            assert(items[0] is Ok);
            assert(items.drop_first() =~= none);
            assert(files.drop_last().push(files.last()) =~= files);
            assert(unit_of(files.last(), files.drop_last()) is Ok);
            assert(unit_files(items[0]->Ok_0) == files);
            assert(grouped_files(items.drop_first()) =~= Seq::<EntryView>::empty());
            assert(grouped_files(items) =~= files + met_files(events));
        }
    } else {
        let first = step(false, files, Some(events[0]));
        let rest = walk_items(false, first.files, events.drop_first());
        assert(items == yielded(first.item) + rest);
        match first.item {
            None => {
                assert(items =~= rest);
                lemma_units_hold_every_file(first.files, events.drop_first());
                assert(events[0] is Ok);
                let entry = events[0]->Ok_0;
                if continues(files, entry@) {
                    assert(first.files + met_files(events.drop_first()) =~= files + met_files(
                        events,
                    ));
                } else {
                    assert(files.len() == 0);
                    assert(first.files + met_files(events.drop_first()) =~= files + met_files(
                        events,
                    ));
                }
            },
            Some(item) => {
                assert(items[0] == item);
                assert(items[0] is Ok);
                assert(items.drop_first() =~= rest);
                assert forall|i: int| 0 <= i < rest.len() implies (#[trigger] rest[i]) is Ok by {
                    assert(items[i + 1] == rest[i]);
                }
                lemma_units_hold_every_file(first.files, events.drop_first());
                assert(events[0] is Ok);
                assert(files.drop_last().push(files.last()) =~= files);
                assert(unit_of(files.last(), files.drop_last()) is Ok);
                assert(unit_files(items[0]->Ok_0) == files);
                assert(grouped_files(items) =~= files + (first.files + met_files(
                    events.drop_first(),
                )));
                assert(grouped_files(items) =~= files + met_files(events));
            },
        }
    }
}

/// Where there is no data root the grouping yields nothing, whatever the
/// walk reports.
pub proof fn lemma_no_data_root_no_items(
    files: Seq<EntryView>,
    events: Seq<Result<DirectoryEntry, walkdir::Error>>,
)
    ensures
        walk_items(true, files, events) == Seq::<Result<UnitView, WalkFault>>::empty(),
    decreases events.len(),
{
    if events.len() > 0 {
        lemma_no_data_root_no_items(files, events.drop_first());
    }
}

/// The files are plain files of one directory.
pub open spec fn same_directory(files: Seq<EntryView>) -> bool {
    forall|i: int, j: int|
        0 <= i < files.len() && 0 <= j < files.len() ==> (#[trigger] files[i]).is_plain_file()
            && files[i].depth() == (#[trigger] files[j]).depth() && files[i].parent()
            == files[j].parent()
}

/// The entries stand in the order in which the walk visits them.
pub open spec fn in_walk_order(entries: Seq<EntryView>) -> bool {
    forall|i: int, j: int|
        0 <= i < j < entries.len() ==> walk_precedence(#[trigger] entries[i], #[trigger] entries[j])
            == NameOrder::Before
}

/// The walk order leaves no choice: two listings of the same entries that
/// both stand in walk order are the same listing, in whatever order the
/// filesystem gave the entries.
pub proof fn lemma_walk_order_is_unique(a: Seq<EntryView>, b: Seq<EntryView>)
    requires
        in_walk_order(a),
        in_walk_order(b),
        a.len() == b.len(),
        forall|entry: EntryView| a.contains(entry) <==> b.contains(entry),
    ensures
        a == b,
    decreases a.len(),
{
    if a.len() == 0 {
        assert(a =~= b);
    } else {
        assert(a.contains(a[0]) && b.contains(b[0]));
        let j = choose|j: int| 0 <= j < b.len() && b[j] == a[0];
        let i = choose|i: int| 0 <= i < a.len() && a[i] == b[0];
        lemma_walk_order_is_total(a[0], b[0], a[0]);
        if j > 0 {
            assert(walk_precedence(b[0], b[j]) == NameOrder::Before);
            if i > 0 {
                assert(walk_precedence(a[0], a[i]) == NameOrder::Before);
            }
        }
        assert(a[0] == b[0]);
        let rest_a = a.drop_first();
        let rest_b = b.drop_first();
        assert forall|entry: EntryView| rest_a.contains(entry) <==> rest_b.contains(entry) by {
            lemma_walk_order_is_total(entry, a[0], entry);
            if rest_a.contains(entry) {
                let n = choose|n: int| 0 <= n < rest_a.len() && rest_a[n] == entry;
                assert(a[n + 1] == entry);
                assert(walk_precedence(a[0], a[n + 1]) == NameOrder::Before);
                assert(b.contains(entry));
                let m = choose|m: int| 0 <= m < b.len() && b[m] == entry;
                assert(m > 0);
                assert(rest_b[m - 1] == entry);
            }
            if rest_b.contains(entry) {
                let n = choose|n: int| 0 <= n < rest_b.len() && rest_b[n] == entry;
                assert(b[n + 1] == entry);
                assert(walk_precedence(b[0], b[n + 1]) == NameOrder::Before);
                assert(a.contains(entry));
                let m = choose|m: int| 0 <= m < a.len() && a[m] == entry;
                assert(m > 0);
                assert(rest_a[m - 1] == entry);
            }
        }
        assert(in_walk_order(rest_a)) by {
            assert forall|x: int, y: int| 0 <= x < y < rest_a.len() implies walk_precedence(
                #[trigger] rest_a[x],
                #[trigger] rest_a[y],
            ) == NameOrder::Before by {
                assert(walk_precedence(a[x + 1], a[y + 1]) == NameOrder::Before);
            }
        }
        assert(in_walk_order(rest_b)) by {
            assert forall|x: int, y: int| 0 <= x < y < rest_b.len() implies walk_precedence(
                #[trigger] rest_b[x],
                #[trigger] rest_b[y],
            ) == NameOrder::Before by {
                assert(walk_precedence(b[x + 1], b[y + 1]) == NameOrder::Before);
            }
        }
        lemma_walk_order_is_unique(rest_a, rest_b);
        assert(a =~= seq![a[0]] + rest_a);
        assert(b =~= seq![b[0]] + rest_b);
    }
}

/// What the grouping reads of each entry.
pub open spec fn views(entries: Seq<DirectoryEntry>) -> Seq<EntryView> {
    entries.map_values(|entry: DirectoryEntry| entry@)
}

/// A walk that meets these entries and no failure.
pub open spec fn met(entries: Seq<DirectoryEntry>) -> Seq<Result<DirectoryEntry, walkdir::Error>> {
    entries.map_values(|entry: DirectoryEntry| Ok::<DirectoryEntry, walkdir::Error>(entry))
}

/// The files of one directory, met in a row, are accumulated and leave
/// together when the walk ends.
pub proof fn lemma_directory_accumulates(files: Seq<EntryView>, entries: Seq<DirectoryEntry>)
    requires
        same_directory(files + views(entries)),
    ensures
        walk_items(false, files, met(entries)) == yielded(flushed(files + views(entries))),
    decreases entries.len(),
{
    let all = files + views(entries);
    if entries.len() == 0 {
        assert(all =~= files);
    } else {
        let entry = entries[0];
        assert(met(entries)[0] == Ok::<DirectoryEntry, walkdir::Error>(entry));
        assert(all[files.len() as int] == entry@);
        assert(entry@.is_plain_file());
        if files.len() > 0 {
            assert(all[files.len() - 1] == files.last());
            assert(continues(files, entry@));
        }
        let next = step(false, files, Some(met(entries)[0]));
        assert(next.files =~= files.push(entry@));
        assert(next.item is None);
        assert(met(entries).drop_first() =~= met(entries.drop_first()));
        assert(files.push(entry@) + views(entries.drop_first()) =~= all);
        lemma_directory_accumulates(files.push(entry@), entries.drop_first());
        assert(walk_items(false, files, met(entries)) =~= walk_items(
            false,
            next.files,
            met(entries).drop_first(),
        ));
    }
}

/// Newest first, in general: where the walk meets, in walk order, the files of
/// a directory that holds the metadata record and beside it only
/// measurements, the record comes last, the measurements come with the later
/// name first, and the grouping yields them all as one unit in that order.
pub proof fn lemma_sorted_directory_is_one_unit(entries: Seq<DirectoryEntry>, record: int)
    requires
        entries.len() >= 2,
        same_directory(views(entries)),
        in_walk_order(views(entries)),
        0 <= record < entries.len(),
        is_metadata(views(entries)[record]),
        forall|i: int|
            0 <= i < entries.len() && i != record ==> measurement_stamp(
                (#[trigger] views(entries)[i]).name(),
            ) is Some,
    ensures
        record == entries.len() - 1,
        forall|i: int, j: int|
            0 <= i < j < entries.len() - 1 ==> precedes(
                (#[trigger] views(entries)[j]).name(),
                (#[trigger] views(entries)[i]).name(),
            ),
        walk_items(false, Seq::empty(), met(entries)).len() == 1,
        walk_items(false, Seq::empty(), met(entries))[0] matches Ok(unit) && unit.wf()
            && unit.stamped_by_name() && unit.metadata == views(entries).last()
            && unit.measurements == views(entries).drop_last(),
{
    let files = views(entries);
    let last = entries.len() - 1;
    if record != last {
        assert(files[record].is_plain_file() && files[last].is_plain_file());
        lemma_measurement_sorts_after_metadata(files[last].name());
        lemma_name_order_reverses(files[last].name(), files[record].name());
        assert(walk_precedence(files[record], files[last]) == NameOrder::Before);
    }
    assert forall|i: int, j: int| 0 <= i < j < entries.len() - 1 implies precedes(
        (#[trigger] files[j]).name(),
        (#[trigger] files[i]).name(),
    ) by {
        assert(files[i].is_plain_file() && files[j].is_plain_file());
        assert(walk_precedence(files[i], files[j]) == NameOrder::Before);
        lemma_order_total(files[j].name(), files[i].name());
    }
    let none = Seq::<EntryView>::empty();
    assert(none + files =~= files);
    lemma_directory_accumulates(none, entries);
    let measurements = files.drop_last();
    assert forall|i: int| 0 <= i < measurements.len() implies is_measurement_of(
        #[trigger] measurements[i],
        files.last(),
    ) by {
        assert(measurements[i] == files[i]);
        assert(files[i].is_plain_file() && files[last].is_plain_file());
    }
    lemma_all_measurements(measurements, files.last(), 0);
    lemma_unit_stamped_by_name(files.last(), measurements);
    lemma_unit_well_formed(files.last(), measurements, name_stamps(measurements));
}

/// Among measurements of a unit no stranger is found.
proof fn lemma_all_measurements(measurements: Seq<EntryView>, metadata: EntryView, from: int)
    requires
        0 <= from <= measurements.len(),
        forall|i: int|
            0 <= i < measurements.len() ==> is_measurement_of(#[trigger] measurements[i], metadata),
    ensures
        first_stranger(measurements, name_stamps(measurements), metadata, from) is None,
    decreases measurements.len() - from,
{
    if from < measurements.len() {
        assert(is_measurement_of(measurements[from], metadata));
        lemma_all_measurements(measurements, metadata, from + 1);
    }
}

/// Newest first: of two measurements in one directory the walk order puts the
/// one whose name sorts later first, and the metadata record after both; and
/// the grouping yields the three, met in that order, as one unit that lists
/// the measurements in that order beside a metadata record which is neither
/// of them. The stamp in a measurement's name has a fixed width and its most
/// significant field first, so the name that sorts later is the later run.
pub proof fn lemma_newest_measurement_first(
    older: DirectoryEntry,
    newer: DirectoryEntry,
    metadata: DirectoryEntry,
)
    requires
        is_metadata(metadata@),
        is_measurement_of(older@, metadata@),
        is_measurement_of(newer@, metadata@),
        precedes(older@.name(), newer@.name()),
    ensures
        walk_precedence(newer@, older@) == NameOrder::Before,
        walk_precedence(older@, metadata@) == NameOrder::Before,
        walk_precedence(newer@, metadata@) == NameOrder::Before,
        metadata@ != older@ && metadata@ != newer@,
        walk_items(false, Seq::empty(), seq![Ok(newer), Ok(older), Ok(metadata)]) == seq![
            Ok::<UnitView, WalkFault>(
                UnitView {
                    path: metadata@.parent(),
                    metadata: metadata@,
                    measurements: seq![newer@, older@],
                    stamps: seq![
                        measurement_stamp(newer@.name())->0,
                        measurement_stamp(older@.name())->0,
                    ],
                },
            ),
        ],
{
    lemma_order_total(older@.name(), newer@.name());
    lemma_measurement_sorts_after_metadata(older@.name());
    lemma_measurement_sorts_after_metadata(newer@.name());
    lemma_order_total(METADATA_FILE_NAME@, older@.name());
    lemma_order_total(METADATA_FILE_NAME@, newer@.name());

    let events = seq![
        Ok::<DirectoryEntry, walkdir::Error>(newer),
        Ok::<DirectoryEntry, walkdir::Error>(older),
        Ok::<DirectoryEntry, walkdir::Error>(metadata),
    ];
    let none = Seq::<EntryView>::empty();
    let one = seq![newer@];
    let two = seq![newer@, older@];
    let three = seq![newer@, older@, metadata@];
    let rest1 = events.drop_first();
    let rest2 = rest1.drop_first();
    let rest3 = rest2.drop_first();
    assert(rest1[0] == Ok::<DirectoryEntry, walkdir::Error>(older));
    assert(rest2[0] == Ok::<DirectoryEntry, walkdir::Error>(metadata));
    assert(rest3.len() == 0);

    let s1 = step(false, none, Some(events[0]));
    assert(s1.files == one && s1.item is None);
    let s2 = step(false, one, Some(rest1[0]));
    assert(one.push(older@) == two);
    assert(s2.files == two && s2.item is None);
    let s3 = step(false, two, Some(rest2[0]));
    assert(two.push(metadata@) == three);
    assert(s3.files == three && s3.item is None);

    assert(three.last() == metadata@);
    assert(three.drop_last() == two);
    let stamps = name_stamps(two);
    assert(first_stranger(two, stamps, metadata@, 2) is None);
    assert(first_stranger(two, stamps, metadata@, 1) is None);
    assert(first_stranger(two, stamps, metadata@, 0) is None);
    let unit = UnitView {
        path: metadata@.parent(),
        metadata: metadata@,
        measurements: two,
        stamps: seq![measurement_stamp(newer@.name())->0, measurement_stamp(older@.name())->0],
    };
    assert(unit.stamps =~= Seq::new(two.len(), |i: int| stamp_at(stamps, i)->0));
    assert(unit_of(metadata@, two) == Ok::<UnitView, ViolationView>(unit));
    assert(flushed(three) == Some(Ok::<UnitView, WalkFault>(unit)));

    let w3 = walk_items(false, three, rest3);
    assert(w3 == seq![Ok::<UnitView, WalkFault>(unit)]);
    let w2 = walk_items(false, two, rest2);
    assert(w2 == yielded(s3.item) + w3);
    assert(w2 == w3);
    let w1 = walk_items(false, one, rest1);
    assert(w1 == yielded(s2.item) + w2);
    assert(w1 == w2);
    let w0 = walk_items(false, none, events);
    assert(w0 == yielded(s1.item) + w1);
    assert(w0 == w1);
}

} // verus!
