//! What the records of a benchmark hold, as far as the layout constrains it.

use vstd::prelude::*;
use crate::identity::{RawBenchmarkId, RawIdentity};
use crate::stamp::{
    lemma_earlier_transitive, measurement_stamp, parse_measurement_datetime, LocalStamp,
};
use crate::text::same_text;
use crate::unit::{Benchmark, UnitView};

verus! {

/// Contents of a `benchmark.cbor` file.
#[derive(Debug, PartialEq)]
pub struct BenchmarkMetadata {
    /// Data which identifies the benchmark.
    pub id: RawBenchmarkId,
    /// Path to the latest measurement, by its components.
    pub latest_record: Vec<String>,
}

/// Mathematical content of a [`BenchmarkMetadata`].
pub struct MetadataView {
    pub id: RawIdentity,
    pub latest_record: Seq<Seq<char>>,
}

impl View for BenchmarkMetadata {
    type V = MetadataView;

    open spec fn view(&self) -> MetadataView {
        MetadataView { id: self.id@, latest_record: self.latest_record.deep_view() }
    }
}

impl MetadataView {
    /// Name of the file that the record points to; empty where the path is.
    pub open spec fn latest_name(self) -> Seq<char> {
        if self.latest_record.len() > 0 {
            self.latest_record.last()
        } else {
            Seq::empty()
        }
    }
}

/// The record points to a measurement of the unit which none of the unit's
/// measurements is later than.
pub open spec fn points_to_latest(metadata: MetadataView, unit: UnitView) -> bool {
    exists|i: int|
        0 <= i < unit.measurements.len() && (#[trigger] unit.measurements[i]).name()
            == metadata.latest_name() && forall|j: int|
            0 <= j < unit.measurements.len() ==> !unit.stamps[i].earlier_than(
                #[trigger] unit.stamps[j],
            )
}

impl BenchmarkMetadata {
    /// Local date and time of the latest measurement, as the name of the
    /// file that the record points to gives it; `None` where that is not the
    /// name of a measurement file.
    pub fn latest_local_datetime(&self) -> (stamp: Option<LocalStamp>)
        ensures
            stamp == measurement_stamp(self@.latest_name()),
    {
        let n = self.latest_record.len();
        if n == 0 {
            proof {
                reveal_strlit("measurement_");
            }
            None
        } else {
            parse_measurement_datetime(self.latest_record[n - 1].as_str())
        }
    }

    /// Whether the record's pointer to the latest measurement names the
    /// measurement of `unit` with the latest stamp.
    pub fn names_latest_of(&self, unit: &Benchmark) -> (consistent: bool)
        ensures
            consistent == points_to_latest(self@, unit@),
    {
        let n = self.latest_record.len();
        let target = if n == 0 {
            proof {
                reveal_strlit("");
            }
            assert(""@ =~= Seq::<char>::empty());
            ""
        } else {
            self.latest_record[n - 1].as_str()
        };
        let all = unit.measurements();
        let mut latest = all[0].local_datetime();
        let mut k: usize = 1;
        while k < all.len()
            invariant
                1 <= k <= all.len(),
                all.len() == unit@.measurements.len(),
                forall|i: int|
                    0 <= i < all.len() ==> (#[trigger] all[i]).stamp() == unit@.stamps[i],
                forall|j: int| 0 <= j < k ==> !latest.earlier_than(#[trigger] unit@.stamps[j]),
                exists|i: int| 0 <= i < all.len() && latest == #[trigger] unit@.stamps[i],
            decreases all.len() - k,
        {
            let stamp = all[k].local_datetime();
            if latest.is_earlier_than(&stamp) {
                proof {
                    assert forall|j: int| 0 <= j < k + 1 implies !stamp.earlier_than(
                        #[trigger] unit@.stamps[j],
                    ) by {
                        lemma_earlier_transitive(latest, stamp, unit@.stamps[j]);
                    }
                }
                latest = stamp;
            }
            k += 1;
        }
        let mut k: usize = 0;
        while k < all.len()
            invariant
                k <= all.len(),
                all.len() == unit@.measurements.len(),
                target@ == self@.latest_name(),
                forall|i: int|
                    0 <= i < all.len() ==> (#[trigger] all[i])@ == unit@.measurements[i]
                        && all[i].stamp() == unit@.stamps[i],
                forall|j: int|
                    0 <= j < all.len() ==> !latest.earlier_than(#[trigger] unit@.stamps[j]),
                exists|i: int| 0 <= i < all.len() && latest == #[trigger] unit@.stamps[i],
                forall|i: int|
                    0 <= i < k ==> (#[trigger] unit@.measurements[i]).name() != target@
                        || unit@.stamps[i].earlier_than(latest),
            decreases all.len() - k,
        {
            let stamp = all[k].local_datetime();
            assert(all[k as int]@ == unit@.measurements[k as int]);
            if same_text(all[k].entry().file_name(), target) && !stamp.is_earlier_than(&latest) {
                proof {
                    assert forall|j: int|
                        0 <= j < unit@.measurements.len() implies !stamp.earlier_than(
                        #[trigger] unit@.stamps[j],
                    ) by {
                        lemma_earlier_transitive(stamp, unit@.stamps[j], latest);
                    }
                }
                return true;
            }
            k += 1;
        }
        proof {
            let top = choose|i: int| 0 <= i < all.len() && latest == #[trigger] unit@.stamps[i];
            assert forall|i: int|
                0 <= i < unit@.measurements.len() && (#[trigger] unit@.measurements[i]).name()
                    == self@.latest_name() implies unit@.stamps[i].earlier_than(
                unit@.stamps[top],
            ) by {}
        }
        false
    }
}

/// Statistical change detected across benchmark runs.
#[derive(Clone, Copy, Debug, PartialEq, Eq, Structural)]
pub enum ChangeDirection {
    NoChange,
    NotSignificant,
    Improved,
    Regressed,
}

/// The shape of a measurement record: how many samples each of its series
/// holds, and which of the optional parts on the change against the run
/// before are there.
#[derive(Clone, Copy, Debug, PartialEq, Eq, Structural)]
pub struct MeasurementShape {
    /// Number of iteration counts.
    pub iterations: usize,
    /// Number of measured values.
    pub values: usize,
    /// Number of averaged values.
    pub avg_values: usize,
    /// Whether the record holds estimates of the change.
    pub has_changes: bool,
    /// Whether the change was significant, where the record says so.
    pub change_direction: Option<ChangeDirection>,
}

/// How a measurement record can be out of shape.
#[derive(Clone, Copy, Debug, PartialEq, Eq, Structural)]
pub enum ShapeFault {
    /// The three series do not hold one entry per sample each.
    SampleCounts,
    /// Estimates of the change come without its direction, or the direction
    /// without the estimates.
    ChangeWithoutDirection,
}

impl MeasurementShape {
    /// A record is consistent where its three series have the same length
    /// and the change estimates are there exactly when the direction is.
    pub open spec fn consistent(self) -> bool {
        self.iterations == self.values && self.iterations == self.avg_values && self.has_changes
            == (self.change_direction is Some)
    }

    /// Checks the shape of a record, the sample counts first.
    pub fn check(&self) -> (outcome: Result<(), ShapeFault>)
        ensures
            outcome is Ok <==> self.consistent(),
            outcome == Err::<(), ShapeFault>(ShapeFault::SampleCounts) <==> !(self.iterations
                == self.values && self.iterations == self.avg_values),
    {
        if self.iterations != self.values || self.iterations != self.avg_values {
            Err(ShapeFault::SampleCounts)
        } else if self.has_changes != self.change_direction.is_some() {
            Err(ShapeFault::ChangeWithoutDirection)
        } else {
            Ok(())
        }
    }
}

} // verus!
