use nvidia_checker::check_result;
use nvidia_checker::CheckStatus;
use nvidia_checker::NvidiaEnvironment;

fn sample() -> NvidiaEnvironment {
    NvidiaEnvironment {
        checked_time: String::from("2023.11.20 10:00:00"),
        kernel: String::from("5.15.0-91-generic"),
        os: String::from("Ubuntu 22.04.3 LTS"),
        nvidia_driver: String::from("535.129.03"),
        cuda: String::from("cuda_12.3.r12.3"),
        cudnn: String::from("8.9.5.29-1+cuda12.2"),
        tensorrt: String::from("8.6.1.6-1+cuda12.0"),
    }
}

fn empty_snapshot() -> NvidiaEnvironment {
    NvidiaEnvironment {
        checked_time: String::from("2023.11.20 10:00:01"),
        kernel: String::new(),
        os: String::new(),
        nvidia_driver: String::new(),
        cuda: String::new(),
        cudnn: String::new(),
        tensorrt: String::new(),
    }
}

#[test]
fn check_result_equal_is_match() {
    assert_eq!(check_result("a", "a"), CheckStatus::Match);
}

#[test]
fn check_result_unequal_is_mismatch() {
    assert_eq!(check_result("a", "b"), CheckStatus::Mismatch);
}

#[test]
fn check_result_empty_versus_nonempty_is_mismatch() {
    assert_eq!(check_result("", "1.0"), CheckStatus::Mismatch);
    assert_eq!(check_result("1.0", ""), CheckStatus::Mismatch);
}

#[test]
fn check_result_empty_versus_empty_is_match() {
    assert_eq!(check_result("", ""), CheckStatus::Match);
}

#[test]
fn labels_are_ok_and_ng() {
    assert_eq!(CheckStatus::Match.label(), "OK");
    assert_eq!(CheckStatus::Mismatch.label(), "NG");
}

#[test]
fn comparing_snapshot_to_itself_is_all_ok() {
    let s = sample();
    let report = s.check_results(&s);
    assert_eq!(report.os, CheckStatus::Match);
    assert_eq!(report.kernel, CheckStatus::Match);
    assert_eq!(report.nvidia_driver, CheckStatus::Match);
    assert_eq!(report.cuda, CheckStatus::Match);
    assert_eq!(report.cudnn, CheckStatus::Match);
    assert_eq!(report.tensorrt, CheckStatus::Match);
}

#[test]
fn comparison_ignores_checked_time() {
    let a = sample();
    let mut b = sample();
    b.checked_time = String::from("1999.01.01 00:00:00");
    let report = a.check_results(&b);
    assert_eq!(report.os, CheckStatus::Match);
    assert_eq!(report.kernel, CheckStatus::Match);
    assert_eq!(report.nvidia_driver, CheckStatus::Match);
    assert_eq!(report.cuda, CheckStatus::Match);
    assert_eq!(report.cudnn, CheckStatus::Match);
    assert_eq!(report.tensorrt, CheckStatus::Match);
}

#[test]
fn comparison_is_symmetric_on_mixed_fields() {
    let a = sample();
    let mut b = sample();
    b.kernel = String::from("6.2.0-39-generic");
    b.cuda = String::new();
    let ab = a.check_results(&b);
    let ba = b.check_results(&a);
    assert_eq!(ab, ba);
    assert_eq!(ab.kernel, CheckStatus::Mismatch);
    assert_eq!(ab.cuda, CheckStatus::Mismatch);
    assert_eq!(ab.os, CheckStatus::Match);
}

fn assert_timestamp_shape(checked_time: &str) {
    let bytes = checked_time.as_bytes();
    let n = bytes.len();
    assert!(n >= 19);
    assert_eq!(bytes[n - 15], b'.');
    assert_eq!(bytes[n - 12], b'.');
    assert_eq!(bytes[n - 9], b' ');
    assert_eq!(bytes[n - 6], b':');
    assert_eq!(bytes[n - 3], b':');
    for offset in [14, 13, 11, 10, 8, 7, 5, 4, 2, 1] {
        assert!(bytes[n - offset].is_ascii_digit());
    }
}

#[test]
fn empty_capture_scenario() {
    let now = NvidiaEnvironment::init("", "", "", "", "", "");
    assert_timestamp_shape(&now.checked_time);
    assert_eq!(now.os, "");
    assert_eq!(now.kernel, "");
    assert_eq!(now.nvidia_driver, "");
    assert_eq!(now.cuda, "");
    assert_eq!(now.cudnn, "");
    assert_eq!(now.tensorrt, "");

    let self_report = now.check_results(&now);
    assert_eq!(self_report.os, CheckStatus::Match);
    assert_eq!(self_report.kernel, CheckStatus::Match);
    assert_eq!(self_report.nvidia_driver, CheckStatus::Match);
    assert_eq!(self_report.cuda, CheckStatus::Match);
    assert_eq!(self_report.cudnn, CheckStatus::Match);
    assert_eq!(self_report.tensorrt, CheckStatus::Match);

    let real = sample();
    let against_real = now.check_results(&real);
    assert_eq!(against_real.os, CheckStatus::Mismatch);
    assert_eq!(against_real.kernel, CheckStatus::Mismatch);
    assert_eq!(against_real.nvidia_driver, CheckStatus::Mismatch);
    assert_eq!(against_real.cuda, CheckStatus::Mismatch);
    assert_eq!(against_real.cudnn, CheckStatus::Mismatch);
    assert_eq!(against_real.tensorrt, CheckStatus::Mismatch);
}

#[test]
fn init_extracts_all_six_fields() {
    let os_out = "PRETTY_NAME=\"Ubuntu 22.04.3 LTS\"\n";
    let kernel_out = "5.15.0-91-generic\n";
    let driver_out = "NVRM version: NVIDIA UNIX x86_64 Kernel Module  535.129.03  Thu Oct 19 2023\n";
    let cuda_out = "Cuda compilation tools, release 12.3, V12.3.103\nBuild cuda_12.3.r12.3/compiler.33567101_0\n";
    let cudnn_out = "ii  libcudnn8  8.9.5.29-1+cuda12.2  amd64  cuDNN runtime\n";
    let trt_out = "ii  libnvinfer8  8.6.1.6-1+cuda12.0  amd64  TensorRT runtime\n";
    let now = NvidiaEnvironment::init(os_out, kernel_out, driver_out, cuda_out, cudnn_out, trt_out);
    assert_eq!(now.os, "Ubuntu 22.04.3 LTS");
    assert_eq!(now.kernel, "5.15.0-91-generic");
    assert_eq!(now.nvidia_driver, "535.129.03");
    assert_eq!(now.cuda, "cuda_12.3.r12.3");
    assert_eq!(now.cudnn, "8.9.5.29-1+cuda12.2");
    assert_eq!(now.tensorrt, "8.6.1.6-1+cuda12.0");
    assert!(!now.checked_time.is_empty());
    assert_timestamp_shape(&now.checked_time);

    let target = empty_snapshot();
    let report = now.check_results(&target);
    assert_eq!(report.os, CheckStatus::Mismatch);
}
