//! Identification of a benchmark: the fields that the metadata record holds,
//! and what they say about how the benchmark was set up.

use criterion::Throughput;
use vstd::prelude::*;
use crate::path::same_path;
use crate::text::{make_filename_safe, safe_name};

verus! {

/// Throughput setting of a benchmark, as `criterion` defines it. The library
/// carries such a value through and never looks inside.
#[verifier::external_type_specification]
#[verifier::external_body]
pub struct ExThroughput(Throughput);

/// The copy that `criterion` derives for its plain enumeration equals the
/// value it was made from.
pub assume_specification[ <Throughput as Clone>::clone ](throughput: &Throughput) -> (copy:
    Throughput)
    ensures
        copy == *throughput,
;

/// Metadata which identifies a benchmark, as recorded.
///
/// What the fields mean depends on how the benchmark was set up;
/// [`decode`](RawBenchmarkId::decode) tells the cases apart.
#[derive(Debug, PartialEq)]
pub struct RawBenchmarkId {
    pub group_or_function_id: String,
    pub function_id_in_group: Option<String>,
    pub value_str: Option<String>,
    pub throughput: Option<Throughput>,
}

/// Mathematical content of a [`RawBenchmarkId`].
pub struct RawIdentity {
    pub primary: Seq<char>,
    pub secondary: Option<Seq<char>>,
    pub value: Option<Seq<char>>,
    pub throughput: Option<Throughput>,
}

impl View for RawBenchmarkId {
    type V = RawIdentity;

    open spec fn view(&self) -> RawIdentity {
        RawIdentity {
            primary: self.group_or_function_id@,
            secondary: self.function_id_in_group.deep_view(),
            value: self.value_str.deep_view(),
            throughput: self.throughput,
        }
    }
}

/// Textual identifier(s) of a benchmark inside of its group.
#[derive(Clone, Copy, Debug, PartialEq, Eq)]
pub enum MemberId<'raw> {
    /// The identifier was given as a plain string.
    String(&'raw str),
    /// The identifier was made from a parameter alone.
    FromParameter(&'raw str),
    /// The identifier holds a function name and a parameter.
    Full { function_name: &'raw str, parameter: &'raw str },
}

/// Mathematical content of a [`MemberId`].
pub enum Member {
    String(Seq<char>),
    FromParameter(Seq<char>),
    Full { function_name: Seq<char>, parameter: Seq<char> },
}

impl<'raw> View for MemberId<'raw> {
    type V = Member;

    open spec fn view(&self) -> Member {
        match self {
            MemberId::String(name) => Member::String(name@),
            MemberId::FromParameter(parameter) => Member::FromParameter(parameter@),
            MemberId::Full { function_name, parameter } => Member::Full {
                function_name: function_name@,
                parameter: parameter@,
            },
        }
    }
}

/// What the fields of a [`RawBenchmarkId`] say.
#[derive(Debug, PartialEq, Eq)]
#[allow(inconsistent_fields)]
pub enum BenchmarkId<'raw> {
    /// A function benchmarked on its own, outside of any group.
    BenchFunction(&'raw str),
    /// Either a member of a group that is identified by a parameter alone, or
    /// a function outside of any group that was benchmarked with an input.
    /// The record does not tell which.
    AmbiguousFromParameter { group_or_function_id: &'raw str, parameter: &'raw str },
    /// A member of a benchmark group.
    InGroup { group_id: &'raw str, member_id: MemberId<'raw>, throughput: Option<Throughput> },
    /// The record names neither a member nor a parameter and yet carries a
    /// throughput, which only a group can set: it breaks the schema.
    ThroughputWithoutGroup { function_id: &'raw str, throughput: Throughput },
}

/// Mathematical content of a [`BenchmarkId`].
#[allow(inconsistent_fields)]
pub enum Identity {
    BenchFunction(Seq<char>),
    AmbiguousFromParameter { group_or_function_id: Seq<char>, parameter: Seq<char> },
    InGroup { group_id: Seq<char>, member_id: Member, throughput: Option<Throughput> },
    ThroughputWithoutGroup { function_id: Seq<char>, throughput: Throughput },
}

impl<'raw> View for BenchmarkId<'raw> {
    type V = Identity;

    open spec fn view(&self) -> Identity {
        match self {
            BenchmarkId::BenchFunction(name) => Identity::BenchFunction(name@),
            BenchmarkId::AmbiguousFromParameter { group_or_function_id, parameter } => {
                Identity::AmbiguousFromParameter {
                    group_or_function_id: group_or_function_id@,
                    parameter: parameter@,
                }
            },
            BenchmarkId::InGroup { group_id, member_id, throughput } => Identity::InGroup {
                group_id: group_id@,
                member_id: member_id@,
                throughput: *throughput,
            },
            BenchmarkId::ThroughputWithoutGroup { function_id, throughput } => {
                Identity::ThroughputWithoutGroup {
                    function_id: function_id@,
                    throughput: *throughput,
                }
            },
        }
    }
}

impl Clone for RawBenchmarkId {
    fn clone(&self) -> (copy: Self)
        ensures
            copy@ == self@,
    {
        RawBenchmarkId {
            group_or_function_id: self.group_or_function_id.clone(),
            function_id_in_group: clone_name(&self.function_id_in_group),
            value_str: clone_name(&self.value_str),
            throughput: clone_setting(&self.throughput),
        }
    }
}

impl<'raw> Clone for BenchmarkId<'raw> {
    fn clone(&self) -> (copy: Self)
        ensures
            copy@ == self@,
    {
        match self {
            BenchmarkId::BenchFunction(name) => BenchmarkId::BenchFunction(*name),
            BenchmarkId::AmbiguousFromParameter { group_or_function_id, parameter } => {
                BenchmarkId::AmbiguousFromParameter {
                    group_or_function_id: *group_or_function_id,
                    parameter: *parameter,
                }
            },
            BenchmarkId::InGroup { group_id, member_id, throughput } => BenchmarkId::InGroup {
                group_id: *group_id,
                member_id: *member_id,
                throughput: clone_setting(throughput),
            },
            BenchmarkId::ThroughputWithoutGroup { function_id, throughput } => {
                BenchmarkId::ThroughputWithoutGroup {
                    function_id: *function_id,
                    throughput: throughput.clone(),
                }
            },
        }
    }
}

/// The reading of a record, by which of its optional fields are present.
pub open spec fn decoded(raw: RawIdentity) -> Identity {
    match (raw.secondary, raw.value, raw.throughput) {
        (None, None, None) => Identity::BenchFunction(raw.primary),
        (None, None, Some(throughput)) => Identity::ThroughputWithoutGroup {
            function_id: raw.primary,
            throughput,
        },
        (None, Some(parameter), Some(throughput)) => Identity::InGroup {
            group_id: raw.primary,
            member_id: Member::FromParameter(parameter),
            throughput: Some(throughput),
        },
        (None, Some(parameter), None) => Identity::AmbiguousFromParameter {
            group_or_function_id: raw.primary,
            parameter,
        },
        (Some(name), None, throughput) => Identity::InGroup {
            group_id: raw.primary,
            member_id: Member::String(name),
            throughput,
        },
        (Some(function_name), Some(parameter), throughput) => Identity::InGroup {
            group_id: raw.primary,
            member_id: Member::Full { function_name, parameter },
            throughput,
        },
    }
}

/// The record that reads as `id`.
pub open spec fn recorded(id: Identity) -> RawIdentity {
    match id {
        Identity::BenchFunction(name) => RawIdentity {
            primary: name,
            secondary: None,
            value: None,
            throughput: None,
        },
        Identity::ThroughputWithoutGroup { function_id, throughput } => RawIdentity {
            primary: function_id,
            secondary: None,
            value: None,
            throughput: Some(throughput),
        },
        Identity::AmbiguousFromParameter { group_or_function_id, parameter } => RawIdentity {
            primary: group_or_function_id,
            secondary: None,
            value: Some(parameter),
            throughput: None,
        },
        Identity::InGroup { group_id, member_id, throughput } => match member_id {
            Member::String(name) => RawIdentity {
                primary: group_id,
                secondary: Some(name),
                value: None,
                throughput,
            },
            Member::FromParameter(parameter) => RawIdentity {
                primary: group_id,
                secondary: None,
                value: Some(parameter),
                throughput,
            },
            Member::Full { function_name, parameter } => RawIdentity {
                primary: group_id,
                secondary: Some(function_name),
                value: Some(parameter),
                throughput,
            },
        },
    }
}

/// The eight cases of the reading, one by one: which variant each pattern of
/// present fields gives.
pub proof fn lemma_decode_by_presence(raw: RawIdentity)
    ensures
        raw.secondary is None && raw.value is None && raw.throughput is None ==> decoded(raw)
            is BenchFunction,
        raw.secondary is None && raw.value is None && raw.throughput is Some ==> decoded(raw)
            is ThroughputWithoutGroup,
        raw.secondary is None && raw.value is Some && raw.throughput is Some ==> decoded(raw)
            is InGroup && decoded(raw)->member_id is FromParameter,
        raw.secondary is None && raw.value is Some && raw.throughput is None ==> decoded(raw)
            is AmbiguousFromParameter,
        raw.secondary is Some && raw.value is None ==> decoded(raw) is InGroup && decoded(
            raw,
        )->member_id is String,
        raw.secondary is Some && raw.value is Some ==> decoded(raw) is InGroup && decoded(
            raw,
        )->member_id is Full,
        decoded(raw) is InGroup ==> decoded(raw)->InGroup_throughput == raw.throughput,
{
}

/// Reading a record loses nothing and changes no string: the record can be
/// written back from what was read.
pub proof fn lemma_decode_keeps_everything(raw: RawIdentity)
    ensures
        recorded(decoded(raw)) == raw,
{
}

/// The directory below the data root in which the tool keeps a benchmark
/// with this record: one component for each name that is present, made safe.
pub open spec fn raw_directory(raw: RawIdentity) -> Seq<Seq<char>> {
    seq![safe_name(raw.primary)] + (match raw.secondary {
        Some(name) => seq![safe_name(name)],
        None => Seq::empty(),
    }) + (match raw.value {
        Some(parameter) => seq![safe_name(parameter)],
        None => Seq::empty(),
    })
}

/// The directory below the data root in which the tool keeps a benchmark
/// with this identity.
pub open spec fn directory(id: Identity) -> Seq<Seq<char>> {
    match id {
        Identity::BenchFunction(name) => seq![safe_name(name)],
        Identity::ThroughputWithoutGroup { function_id, .. } => seq![safe_name(function_id)],
        Identity::AmbiguousFromParameter { group_or_function_id, parameter } => seq![
            safe_name(group_or_function_id),
            safe_name(parameter),
        ],
        Identity::InGroup { group_id, member_id, .. } => match member_id {
            Member::String(name) => seq![safe_name(group_id), safe_name(name)],
            Member::FromParameter(parameter) => seq![safe_name(group_id), safe_name(parameter)],
            Member::Full { function_name, parameter } => seq![
                safe_name(group_id),
                safe_name(function_name),
                safe_name(parameter),
            ],
        },
    }
}

/// The directory derived from what was read of a record is the directory
/// derived from the record itself.
pub proof fn lemma_directory_of_decoded(raw: RawIdentity)
    ensures
        directory(decoded(raw)) == raw_directory(raw),
{
    assert(directory(decoded(raw)) =~= raw_directory(raw));
}

/// A benchmark lies in another directory than its identity says.
#[derive(Debug, PartialEq, Eq)]
pub struct PathMismatch {
    pub expected: Vec<String>,
    pub observed: Vec<String>,
}

impl RawBenchmarkId {
    /// Decodes the raw benchmark metadata into a view where the names of the
    /// fields say what they hold and only valid combinations occur.
    pub fn decode(&self) -> (id: BenchmarkId<'_>)
        ensures
            id@ == decoded(self@),
    {
        let primary = self.group_or_function_id.as_str();
        match (&self.function_id_in_group, &self.value_str, &self.throughput) {
            (None, None, None) => BenchmarkId::BenchFunction(primary),
            (None, None, Some(throughput)) => BenchmarkId::ThroughputWithoutGroup {
                function_id: primary,
                throughput: throughput.clone(),
            },
            (None, Some(parameter), Some(throughput)) => BenchmarkId::InGroup {
                group_id: primary,
                member_id: MemberId::FromParameter(parameter.as_str()),
                throughput: Some(throughput.clone()),
            },
            (None, Some(parameter), None) => BenchmarkId::AmbiguousFromParameter {
                group_or_function_id: primary,
                parameter: parameter.as_str(),
            },
            (Some(name), None, throughput) => BenchmarkId::InGroup {
                group_id: primary,
                member_id: MemberId::String(name.as_str()),
                throughput: clone_setting(throughput),
            },
            (Some(function_name), Some(parameter), throughput) => BenchmarkId::InGroup {
                group_id: primary,
                member_id: MemberId::Full {
                    function_name: function_name.as_str(),
                    parameter: parameter.as_str(),
                },
                throughput: clone_setting(throughput),
            },
        }
    }
}

/// A copy of a name, where there is one.
fn clone_name(name: &Option<String>) -> (copy: Option<String>)
    ensures
        copy.deep_view() == name.deep_view(),
{
    match name {
        Some(text) => Some(text.clone()),
        None => None,
    }
}

/// A copy of a throughput setting, where there is one.
fn clone_setting(throughput: &Option<Throughput>) -> (copy: Option<Throughput>)
    ensures
        copy == *throughput,
{
    match throughput {
        Some(setting) => Some(setting.clone()),
        None => None,
    }
}

impl<'raw> BenchmarkId<'raw> {
    /// Components of the directory below the data root in which the tool
    /// keeps a benchmark with this identity.
    pub fn expected_path(&self) -> (path: Vec<String>)
        ensures
            path.deep_view() == directory(self@),
    {
        let mut path: Vec<String> = Vec::new();
        match self {
            BenchmarkId::BenchFunction(name) => {
                path.push(make_filename_safe(name));
            },
            BenchmarkId::ThroughputWithoutGroup { function_id, .. } => {
                path.push(make_filename_safe(function_id));
            },
            BenchmarkId::AmbiguousFromParameter { group_or_function_id, parameter } => {
                path.push(make_filename_safe(group_or_function_id));
                path.push(make_filename_safe(parameter));
            },
            BenchmarkId::InGroup { group_id, member_id, .. } => {
                path.push(make_filename_safe(group_id));
                match member_id {
                    MemberId::String(name) => {
                        path.push(make_filename_safe(name));
                    },
                    MemberId::FromParameter(parameter) => {
                        path.push(make_filename_safe(parameter));
                    },
                    MemberId::Full { function_name, parameter } => {
                        path.push(make_filename_safe(function_name));
                        path.push(make_filename_safe(parameter));
                    },
                }
            },
        }
        assert(path.deep_view() =~= directory(self@));
        path
    }

    /// Holds the directory in which a benchmark was found against the one
    /// that its identity calls for.
    pub fn cross_check(&self, observed: &Vec<String>) -> (outcome: Result<(), PathMismatch>)
        ensures
            outcome is Ok <==> observed.deep_view() == directory(self@),
            outcome matches Err(mismatch) ==> mismatch.expected.deep_view() == directory(self@)
                && mismatch.observed.deep_view() == observed.deep_view(),
    {
        let expected = self.expected_path();
        if same_path(&expected, observed) {
            Ok(())
        } else {
            Err(PathMismatch { expected, observed: crate::path::copy_path(observed) })
        }
    }
}

} // verus!
