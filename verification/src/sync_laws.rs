//! What holds of every pass over the tree: that it reads no more than it
//! must, that it leaves out nothing that the walk saw, and that it takes
//! nothing out of the cache.

use vstd::prelude::*;
use crate::entry::DirectoryEntry;
use crate::stamp::ModTime;
use crate::sync::{
    committed, first_failure, index_after, known_measurements, planned, seen_before_failure,
    unit_names, unknown_positions, CacheView, MetadataAction, Observation, PlanView,
};
use crate::unit::UnitView;
use crate::walk::walk_items;
use crate::walk_laws::lemma_no_data_root_no_items;

verus! {

/// The positions that a plan lists are those of the names that the cache
/// lacks, each once and in rising order.
pub proof fn lemma_unknown_positions(names: Seq<Seq<char>>, known: Set<Seq<char>>, upto: int)
    requires
        0 <= upto <= names.len(),
    ensures
        forall|p: int|
            unknown_positions(names, known, upto).contains(p) <==> 0 <= p < upto
                && !known.contains(#[trigger] names[p]),
        forall|i: int, j: int|
            0 <= i < j < unknown_positions(names, known, upto).len() ==> unknown_positions(
                names,
                known,
                upto,
            )[i] < unknown_positions(names, known, upto)[j],
        forall|i: int|
            0 <= i < unknown_positions(names, known, upto).len() ==> 0
                <= #[trigger] unknown_positions(names, known, upto)[i] < upto,
    decreases upto,
{
    if upto > 0 {
        lemma_unknown_positions(names, known, upto - 1);
        let before = unknown_positions(names, known, upto - 1);
        let all = unknown_positions(names, known, upto);
        assert forall|p: int| all.contains(p) <==> 0 <= p < upto && !known.contains(
            #[trigger] names[p],
        ) by {
            if all.contains(p) {
                let i = choose|i: int| 0 <= i < all.len() && all[i] == p;
                if i < before.len() {
                    assert(before[i] == p);
                    assert(before.contains(p));
                }
            }
            if 0 <= p < upto && !known.contains(names[p]) {
                if p < upto - 1 {
                    assert(before.contains(p));
                    let i = choose|i: int| 0 <= i < before.len() && before[i] == p;
                    assert(all[i] == p);
                } else {
                    assert(all[all.len() - 1] == p);
                }
            }
        }
    }
}

/// Minimality: where the cache holds every measurement of a unit but one,
/// the plan lists that one alone, and carrying it out adds that one alone to
/// the benchmark's row.
pub proof fn lemma_one_new_measurement(
    index: CacheView,
    unit: UnitView,
    modified: ModTime,
    fresh: int,
)
    requires
        index.dom().contains(unit.path),
        0 <= fresh < unit.measurements.len(),
        !index[unit.path].measurements.contains(unit_names(unit)[fresh]),
        forall|i: int|
            0 <= i < unit.measurements.len() && i != fresh
                ==> index[unit.path].measurements.contains(#[trigger] unit_names(unit)[i]),
    ensures
        planned(index, unit, modified).new_measurements == seq![fresh],
        committed(index, unit, modified)[unit.path].measurements
            == index[unit.path].measurements.insert(unit_names(unit)[fresh]),
{
    let names = unit_names(unit);
    let known = index[unit.path].measurements;
    let found = unknown_positions(names, known, names.len() as int);
    lemma_unknown_positions(names, known, names.len() as int);
    assert(found.contains(fresh));
    assert(found.len() > 0);
    assert(found.contains(found[0]));
    assert(!known.contains(names[found[0]]));
    assert(found[0] == fresh);
    if found.len() > 1 {
        assert(found.contains(found[1]));
        assert(!known.contains(names[found[1]]));
        assert(found[1] == fresh);
        assert(found[0] < found[1]);
    }
    assert(found =~= seq![fresh]);
    assert(known.union(names.to_set()) =~= known.insert(names[fresh])) by {
        assert forall|name: Seq<char>| names.to_set().contains(name) implies known.insert(
            names[fresh],
        ).contains(name) by {
            let i = choose|i: int| 0 <= i < names.len() && names[i] == name;
            if i != fresh {
                assert(known.contains(names[i]));
            }
        }
        assert(names.to_set().contains(names[fresh]));
    }
}

/// Staleness: a metadata record that is not strictly newer than the row of
/// its benchmark is not read again, and the row keeps its time.
pub proof fn lemma_unchanged_metadata_is_kept(
    index: CacheView,
    unit: UnitView,
    modified: ModTime,
)
    requires
        index.dom().contains(unit.path),
        !modified.later_than(index[unit.path].modified),
    ensures
        planned(index, unit, modified).metadata == MetadataAction::Keep,
        committed(index, unit, modified)[unit.path].modified == index[unit.path].modified,
{
}

/// After a unit was visited its row holds every measurement that the walk
/// saw, the rows of other benchmarks are as they were, and nothing is ever
/// taken out of the cache.
pub proof fn lemma_committed_covers_unit(
    index: CacheView,
    unit: UnitView,
    modified: ModTime,
)
    ensures
        committed(index, unit, modified).dom() == index.dom().insert(unit.path),
        forall|i: int|
            0 <= i < unit.measurements.len() ==> committed(
                index,
                unit,
                modified,
            )[unit.path].measurements.contains(#[trigger] unit_names(unit)[i]),
        forall|name: Seq<char>|
            known_measurements(index, unit.path).contains(name) ==> committed(
                index,
                unit,
                modified,
            )[unit.path].measurements.contains(name),
        forall|path: Seq<Seq<char>>|
            path != unit.path && index.dom().contains(path) ==> committed(
                index,
                unit,
                modified,
            )[path] == index[path],
{
    let names = unit_names(unit);
    assert forall|i: int| 0 <= i < unit.measurements.len() implies committed(
        index,
        unit,
        modified,
    )[unit.path].measurements.contains(#[trigger] unit_names(unit)[i]) by {
        assert(names.to_set().contains(names[i]));
    }
}

/// A pass takes nothing out of the index: a measurement that it held before
/// the pass it holds after it.
pub proof fn lemma_pass_keeps_measurements(
    index: CacheView,
    seen: Seq<Observation>,
    path: Seq<Seq<char>>,
    name: Seq<char>,
)
    requires
        index.dom().contains(path),
        index[path].measurements.contains(name),
    ensures
        index_after(index, seen).dom().contains(path),
        index_after(index, seen)[path].measurements.contains(name),
    decreases seen.len(),
{
    if seen.len() > 0 {
        lemma_pass_keeps_measurements(index, seen.drop_last(), path, name);
        lemma_committed_covers_unit(
            index_after(index, seen.drop_last()),
            seen.last().unit@,
            seen.last().modified,
        );
    }
}

/// After a pass the index has a row for every unit that the pass visited, and
/// the row holds every measurement that the walk saw of the unit.
pub proof fn lemma_pass_covers_every_unit(
    index: CacheView,
    seen: Seq<Observation>,
    i: int,
    k: int,
)
    requires
        0 <= i < seen.len(),
        0 <= k < seen[i].unit@.measurements.len(),
    ensures
        index_after(index, seen).dom().contains(seen[i].unit@.path),
        index_after(index, seen)[seen[i].unit@.path].measurements.contains(
            unit_names(seen[i].unit@)[k],
        ),
    decreases seen.len(),
{
    let before = index_after(index, seen.drop_last());
    lemma_committed_covers_unit(before, seen.last().unit@, seen.last().modified);
    if i < seen.len() - 1 {
        assert(seen.drop_last()[i] == seen[i]);
        lemma_pass_covers_every_unit(index, seen.drop_last(), i, k);
    }
}

/// A pass over a tree that has not changed since the last one reads
/// nothing: the metadata record is kept and no measurement is new.
pub proof fn lemma_second_visit_reads_nothing(
    index: CacheView,
    unit: UnitView,
    modified: ModTime,
)
    ensures
        planned(committed(index, unit, modified), unit, modified) == (PlanView {
            metadata: MetadataAction::Keep,
            new_measurements: Seq::empty(),
        }),
        committed(committed(index, unit, modified), unit, modified) == committed(
            index,
            unit,
            modified,
        ),
{
    let once = committed(index, unit, modified);
    let names = unit_names(unit);
    let known = known_measurements(once, unit.path);
    lemma_committed_covers_unit(index, unit, modified);
    lemma_unknown_positions(names, known, names.len() as int);
    let found = unknown_positions(names, known, names.len() as int);
    assert(once.dom().contains(unit.path));
    if found.len() > 0 {
        assert(found.contains(found[0]));
        assert(!known.contains(names[found[0]]));
        assert(known.contains(unit_names(unit)[found[0]]));
    }
    assert(found =~= Seq::<int>::empty());
    assert(known.union(names.to_set()) =~= known);
    assert(committed(once, unit, modified) =~= once);
}

/// Absence: where the data root does not exist yet, the walk yields nothing
/// whatever it reports, and the pass over nothing succeeds and leaves the
/// index as it was: empty, where it was empty.
pub proof fn lemma_absent_root_leaves_index(
    index: CacheView,
    events: Seq<Result<DirectoryEntry, walkdir::Error>>,
)
    ensures
        walk_items(true, Seq::empty(), events).len() == 0,
        first_failure(Seq::empty()) is None,
        index_after(index, seen_before_failure(Seq::empty())) == index,
{
    lemma_no_data_root_no_items(Seq::empty(), events);
}

} // verus!
