use nvidia_checker::get_cuda_version;
use nvidia_checker::get_cudnn_version;
use nvidia_checker::get_dpkg_version;
use nvidia_checker::get_kernel_version;
use nvidia_checker::get_nvidia_driver_version;
use nvidia_checker::get_os_version;
use nvidia_checker::get_tensorrt_version;

#[test]
fn os_version_pretty_name_quoted() {
    let out = "NAME=\"Ubuntu\"\nVERSION=\"22.04.3 LTS (Jammy Jellyfish)\"\nPRETTY_NAME=\"Ubuntu 22.04.3 LTS\"\nID=ubuntu\n";
    assert_eq!(get_os_version(out), "Ubuntu 22.04.3 LTS");
}

#[test]
fn os_version_pretty_name_unquoted() {
    let out = "PRETTY_NAME=Debian\nID=debian\n";
    assert_eq!(get_os_version(out), "Debian");
}

#[test]
fn os_version_first_matching_line_wins() {
    let out = "PRETTY_NAME=\"first\"\nPRETTY_NAME=\"second\"\n";
    assert_eq!(get_os_version(out), "first");
}

#[test]
fn os_version_value_stops_at_second_equals() {
    let out = "PRETTY_NAME=\"X=Y\"\n";
    assert_eq!(get_os_version(out), "X");
}

#[test]
fn os_version_missing_key_is_empty() {
    let out = "NAME=\"Ubuntu\"\nID=ubuntu\n";
    assert_eq!(get_os_version(out), "");
}

#[test]
fn os_version_empty_input_is_empty() {
    assert_eq!(get_os_version(""), "");
}

#[test]
fn os_version_key_without_equals_is_empty() {
    assert_eq!(get_os_version("PRETTY_NAME\n"), "");
}

#[test]
fn kernel_version_trims_newline() {
    assert_eq!(get_kernel_version("5.15.0-91-generic\n"), "5.15.0-91-generic");
}

#[test]
fn kernel_version_empty_input_is_empty() {
    assert_eq!(get_kernel_version(""), "");
}

#[test]
fn driver_version_eighth_token() {
    let out = "NVRM version: NVIDIA UNIX x86_64 Kernel Module  535.129.03  Thu Oct 19 18:42:30 UTC 2023\nGCC version:  gcc version 11.4.0\n";
    assert_eq!(get_nvidia_driver_version(out), "535.129.03");
}

#[test]
fn driver_version_open_kernel_module_line() {
    let out = "NVRM version: NVIDIA UNIX Open Kernel Module for x86_64  535.129.03  Release Build  (dvs-builder@U16-I3-D08-1-2)  Thu Oct 19 18:42:30 UTC 2023\nGCC version:  gcc version 11.4.0\n";
    assert_eq!(get_nvidia_driver_version(out), "535.129.03");
}

#[test]
fn driver_version_truncated_open_line_is_empty() {
    let out = "NVRM version: NVIDIA UNIX Open Kernel Module for x86_64\n";
    assert_eq!(get_nvidia_driver_version(out), "");
}

#[test]
fn driver_version_collapses_repeated_blanks() {
    let out = "a  b   c d e f g  8th-token extra\n";
    assert_eq!(get_nvidia_driver_version(out), "8th-token");
}

#[test]
fn driver_version_short_line_is_empty() {
    assert_eq!(get_nvidia_driver_version("too few tokens here\n"), "");
}

#[test]
fn driver_version_empty_input_is_empty() {
    assert_eq!(get_nvidia_driver_version(""), "");
}

#[test]
fn cuda_version_from_build_line() {
    let out = "nvcc: NVIDIA (R) Cuda compiler driver\nCopyright (c) 2005-2023 NVIDIA Corporation\nBuilt on Fri_Nov__3_17:16:49_PDT_2023\nCuda compilation tools, release 12.3, V12.3.103\nBuild cuda_12.3.r12.3/compiler.33567101_0\n";
    assert_eq!(get_cuda_version(out), "cuda_12.3.r12.3");
}

#[test]
fn cuda_version_no_build_line_is_empty() {
    let out = "nvcc: NVIDIA (R) Cuda compiler driver\n";
    assert_eq!(get_cuda_version(out), "");
}

#[test]
fn cuda_version_empty_input_is_empty() {
    assert_eq!(get_cuda_version(""), "");
}

#[test]
fn cudnn_version_two_packages_sorted_joined() {
    let out = "ii  libcudnn8  8.9.5.29-1+cuda12.2  amd64  cuDNN runtime\nii  libcudnn8-dev  8.9.5.30-1+cuda12.2  amd64  cuDNN dev\n";
    assert_eq!(
        get_cudnn_version(out),
        "8.9.5.29-1+cuda12.2,8.9.5.30-1+cuda12.2"
    );
}

#[test]
fn cudnn_version_no_match_is_empty() {
    let out = "ii  libfoo  1.0  amd64  something else\n";
    assert_eq!(get_cudnn_version(out), "");
}

#[test]
fn tensorrt_version_matches_libnv_marker() {
    let out = "ii  libnvinfer8  8.6.1.6-1+cuda12.0  amd64  TensorRT runtime\n";
    assert_eq!(get_tensorrt_version(out), "8.6.1.6-1+cuda12.0");
}

#[test]
fn dpkg_version_sorts_and_dedups() {
    let out = "ii  libcudnn8  2.0  amd64  x\nii  libcudnn8  1.0  amd64  x\nii  libcudnn8  2.0  amd64  x\nii  libcudnn8  1.5  amd64  x\n";
    assert_eq!(get_dpkg_version(out, "libcudnn8"), "1.0,1.5,2.0");
}

#[test]
fn dpkg_version_skips_short_lines() {
    let out = "libcudnn8\nii  libcudnn8  3.1  amd64  x\n";
    assert_eq!(get_dpkg_version(out, "libcudnn8"), "3.1");
}

#[test]
fn dpkg_version_empty_input_is_empty() {
    assert_eq!(get_dpkg_version("", "libcudnn8"), "");
}
