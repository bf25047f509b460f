//! The snapshot model: the record aggregating the six tracked subsystem
//! versions plus the capture timestamp.
use vstd::prelude::*;

use crate::extract::get_cuda_version;
use crate::extract::get_cudnn_version;
use crate::extract::get_kernel_version;
use crate::extract::get_nvidia_driver_version;
use crate::extract::get_os_version;
use crate::extract::get_tensorrt_version;
use crate::extract::spec_cuda_version;
use crate::extract::spec_cudnn_version;
use crate::extract::spec_kernel_version;
use crate::extract::spec_nvidia_driver_version;
use crate::extract::spec_os_version;
use crate::extract::spec_tensorrt_version;

verus! {

/// The spec-level image of a snapshot: the character view of each field.
pub struct SnapshotView {
    pub checked_time: Seq<char>,
    pub kernel: Seq<char>,
    pub os: Seq<char>,
    pub nvidia_driver: Seq<char>,
    pub cuda: Seq<char>,
    pub cudnn: Seq<char>,
    pub tensorrt: Seq<char>,
}

/// One captured or loaded record of the six tracked subsystem versions plus
/// the capture timestamp.  An unparsed or absent value is the empty string,
/// never an error; a snapshot is immutable once constructed.
#[derive(Debug)]
pub struct NvidiaEnvironment {
    pub checked_time: String,
    pub kernel: String,
    pub os: String,
    pub nvidia_driver: String,
    pub cuda: String,
    pub cudnn: String,
    pub tensorrt: String,
}

impl View for NvidiaEnvironment {
    type V = SnapshotView;

    open spec fn view(&self) -> SnapshotView {
        SnapshotView {
            checked_time: self.checked_time@,
            kernel: self.kernel@,
            os: self.os@,
            nvidia_driver: self.nvidia_driver@,
            cuda: self.cuda@,
            cudnn: self.cudnn@,
            tensorrt: self.tensorrt@,
        }
    }
}

/// A decimal digit.
pub open spec fn spec_digit(c: char) -> bool {
    ('0' as u32) <= (c as u32) && (c as u32) <= ('9' as u32)
}

/// The shape of a capture timestamp `YYYY.MM.DD HH:MM:SS`: at least nineteen
/// characters, the last fifteen being the two-digit month, day, hour, minute
/// and second fields between the fixed separators; the leading year field
/// takes at least four characters.
pub open spec fn timestamp_shape(s: Seq<char>) -> bool {
    let n = s.len() as int;
    &&& n >= 19
    &&& s[n - 15] == '.'
    &&& spec_digit(s[n - 14]) && spec_digit(s[n - 13])
    &&& s[n - 12] == '.'
    &&& spec_digit(s[n - 11]) && spec_digit(s[n - 10])
    &&& s[n - 9] == ' '
    &&& spec_digit(s[n - 8]) && spec_digit(s[n - 7])
    &&& s[n - 6] == ':'
    &&& spec_digit(s[n - 5]) && spec_digit(s[n - 4])
    &&& s[n - 3] == ':'
    &&& spec_digit(s[n - 2]) && spec_digit(s[n - 1])
}

/// Relies on `chrono::Local::now` and chrono's `format`: the current local
/// time rendered as `YYYY.MM.DD HH:MM:SS`.  The clock decides the value, so
/// only what holds of every outcome is assumed: the month, day, hour, minute
/// and second fields are always written as exactly two digits between the
/// fixed separators, and the year as at least four characters, so the result
/// is at least nineteen characters and never empty.
#[verifier::external_body]
fn now_timestamp() -> (r: String)
    ensures
        r@.len() >= 19,
        timestamp_shape(r@),
{
    chrono::Local::now().format("%Y.%m.%d %H:%M:%S").to_string()
}

impl NvidiaEnvironment {
    /// Builds the current snapshot from the raw outputs of the six queried
    /// commands; the capture time is read from the system clock.
    pub fn init(
        os_output: &str,
        kernel_output: &str,
        nvidia_driver_output: &str,
        cuda_output: &str,
        cudnn_output: &str,
        tensorrt_output: &str,
    ) -> (r: NvidiaEnvironment)
        ensures
            r@.checked_time.len() >= 19,
            timestamp_shape(r@.checked_time),
            r@.os == spec_os_version(os_output@),
            r@.kernel == spec_kernel_version(kernel_output@),
            r@.nvidia_driver == spec_nvidia_driver_version(nvidia_driver_output@),
            r@.cuda == spec_cuda_version(cuda_output@),
            r@.cudnn == spec_cudnn_version(cudnn_output@),
            r@.tensorrt == spec_tensorrt_version(tensorrt_output@),
    {
        NvidiaEnvironment {
            checked_time: now_timestamp(),
            os: get_os_version(os_output),
            kernel: get_kernel_version(kernel_output),
            nvidia_driver: get_nvidia_driver_version(nvidia_driver_output),
            cuda: get_cuda_version(cuda_output),
            cudnn: get_cudnn_version(cudnn_output),
            tensorrt: get_tensorrt_version(tensorrt_output),
        }
    }
}

} // verus!
