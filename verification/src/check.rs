//! The comparator: pairwise exact string equality between two snapshots'
//! corresponding fields, yielding a pass/fail per field.  The capture
//! timestamp is never compared.
use vstd::prelude::*;

use crate::snapshot::NvidiaEnvironment;
use crate::snapshot::SnapshotView;
use crate::text::str_eq;

verus! {

/// The outcome of one field comparison: the versions match or they differ.
#[derive(Clone, Copy, Debug, PartialEq, Eq, Structural)]
pub enum CheckStatus {
    Match,
    Mismatch,
}

impl CheckStatus {
    /// The label the report prints: `OK` for a match, `NG` for a mismatch.
    pub fn label(&self) -> (r: String)
        ensures
            self is Match ==> r@ == "OK"@,
            self is Mismatch ==> r@ == "NG"@,
    {
        match self {
            CheckStatus::Match => "OK".to_owned(),
            CheckStatus::Mismatch => "NG".to_owned(),
        }
    }
}

/// `Match` exactly when the two version strings are equal; the equality is
/// exact, so an empty side against a non-empty one is a mismatch.
pub open spec fn spec_check(now_version: Seq<char>, target_version: Seq<char>) -> CheckStatus {
    if now_version == target_version {
        CheckStatus::Match
    } else {
        CheckStatus::Mismatch
    }
}

/// Compares one field of the current snapshot against the target, as
/// `spec_check` describes.
pub fn check_result(now_version: &str, target_version: &str) -> (r: CheckStatus)
    ensures
        r == spec_check(now_version@, target_version@),
{
    if str_eq(now_version, target_version) {
        CheckStatus::Match
    } else {
        CheckStatus::Mismatch
    }
}

/// One pass/fail per compared field of a snapshot pair.
#[derive(Clone, Copy, Debug, PartialEq, Eq, Structural)]
pub struct CheckReport {
    pub os: CheckStatus,
    pub kernel: CheckStatus,
    pub nvidia_driver: CheckStatus,
    pub cuda: CheckStatus,
    pub cudnn: CheckStatus,
    pub tensorrt: CheckStatus,
}

/// The comparison of the six compared fields of two snapshots;
/// `checked_time` takes no part in it.
pub open spec fn spec_check_results(now: SnapshotView, target: SnapshotView) -> CheckReport {
    CheckReport {
        os: spec_check(now.os, target.os),
        kernel: spec_check(now.kernel, target.kernel),
        nvidia_driver: spec_check(now.nvidia_driver, target.nvidia_driver),
        cuda: spec_check(now.cuda, target.cuda),
        cudnn: spec_check(now.cudnn, target.cudnn),
        tensorrt: spec_check(now.tensorrt, target.tensorrt),
    }
}

impl NvidiaEnvironment {
    /// Compares this snapshot field by field against a target snapshot, as
    /// `spec_check_results` describes.
    pub fn check_results(&self, target: &NvidiaEnvironment) -> (r: CheckReport)
        ensures
            r == spec_check_results(self@, target@),
    {
        CheckReport {
            os: check_result(self.os.as_str(), target.os.as_str()),
            kernel: check_result(self.kernel.as_str(), target.kernel.as_str()),
            nvidia_driver: check_result(
                self.nvidia_driver.as_str(),
                target.nvidia_driver.as_str(),
            ),
            cuda: check_result(self.cuda.as_str(), target.cuda.as_str()),
            cudnn: check_result(self.cudnn.as_str(), target.cudnn.as_str()),
            tensorrt: check_result(self.tensorrt.as_str(), target.tensorrt.as_str()),
        }
    }
}

/// The comparator is reflexive: a snapshot compared against itself matches
/// on all six compared fields.
pub proof fn lemma_check_reflexive(s: SnapshotView)
    ensures
        spec_check_results(s, s) == (CheckReport {
            os: CheckStatus::Match,
            kernel: CheckStatus::Match,
            nvidia_driver: CheckStatus::Match,
            cuda: CheckStatus::Match,
            cudnn: CheckStatus::Match,
            tensorrt: CheckStatus::Match,
        }),
{
}

/// The comparator is symmetric: comparing two snapshots in either order
/// yields the same pattern of matches and mismatches.
pub proof fn lemma_check_symmetric(a: SnapshotView, b: SnapshotView)
    ensures
        spec_check_results(a, b) == spec_check_results(b, a),
{
}

} // verus!
