//! Verified core of a GPU software-stack checker: extractors that normalize
//! raw command output into version strings, a snapshot model aggregating the
//! six tracked versions, a field-by-field comparator, and the persisted
//! key-value record codec of the snapshot store.
pub mod check;
pub mod extract;
pub mod snapshot;
pub mod store;
pub mod text;

pub use crate::check::check_result;
pub use crate::check::CheckReport;
pub use crate::check::CheckStatus;
pub use crate::extract::get_cuda_version;
pub use crate::extract::get_cudnn_version;
pub use crate::extract::get_dpkg_version;
pub use crate::extract::get_kernel_version;
pub use crate::extract::get_nvidia_driver_version;
pub use crate::extract::get_os_version;
pub use crate::extract::get_tensorrt_version;
pub use crate::snapshot::NvidiaEnvironment;
pub use crate::store::DeserializationError;
