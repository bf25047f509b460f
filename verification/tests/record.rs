use nvidia_checker::NvidiaEnvironment;

fn sample() -> NvidiaEnvironment {
    NvidiaEnvironment {
        checked_time: String::from("2023.11.20 10:00:00"),
        kernel: String::from("5.15.0-91-generic"),
        os: String::from("Ubuntu 22.04.3 LTS"),
        nvidia_driver: String::from("535.129.03"),
        cuda: String::from("cuda_12.3.r12.3"),
        cudnn: String::from("8.9.5.29-1+cuda12.2,8.9.5.30-1+cuda12.2"),
        tensorrt: String::from("8.6.1.6-1+cuda12.0"),
    }
}

fn assert_same_fields(a: &NvidiaEnvironment, b: &NvidiaEnvironment) {
    assert_eq!(a.checked_time, b.checked_time);
    assert_eq!(a.kernel, b.kernel);
    assert_eq!(a.os, b.os);
    assert_eq!(a.nvidia_driver, b.nvidia_driver);
    assert_eq!(a.cuda, b.cuda);
    assert_eq!(a.cudnn, b.cudnn);
    assert_eq!(a.tensorrt, b.tensorrt);
}

#[test]
fn serialized_record_shape() {
    let text = sample().to_toml();
    assert_eq!(
        text,
        "checked_time = \"2023.11.20 10:00:00\"\nkernel = \"5.15.0-91-generic\"\nos = \"Ubuntu 22.04.3 LTS\"\nnvidia_driver = \"535.129.03\"\ncuda = \"cuda_12.3.r12.3\"\ncudnn = \"8.9.5.29-1+cuda12.2,8.9.5.30-1+cuda12.2\"\ntensorrt = \"8.6.1.6-1+cuda12.0\"\n"
    );
}

#[test]
fn round_trip_ordinary_snapshot() {
    let original = sample();
    let text = original.to_toml();
    let loaded = NvidiaEnvironment::from_toml(&text).unwrap();
    assert_same_fields(&original, &loaded);
}

#[test]
fn round_trip_empty_fields() {
    let original = NvidiaEnvironment {
        checked_time: String::new(),
        kernel: String::new(),
        os: String::new(),
        nvidia_driver: String::new(),
        cuda: String::new(),
        cudnn: String::new(),
        tensorrt: String::new(),
    };
    let text = original.to_toml();
    let loaded = NvidiaEnvironment::from_toml(&text).unwrap();
    assert_same_fields(&original, &loaded);
}

#[test]
fn round_trip_special_characters() {
    let original = NvidiaEnvironment {
        checked_time: String::from("a\"b"),
        kernel: String::from("back\\slash"),
        os: String::from("line\nbreak"),
        nvidia_driver: String::from("tab\there"),
        cuda: String::from("cr\rhere"),
        cudnn: String::from("quote \" and \\ mixed\n"),
        tensorrt: String::from("plain"),
    };
    let text = original.to_toml();
    let loaded = NvidiaEnvironment::from_toml(&text).unwrap();
    assert_same_fields(&original, &loaded);
}

#[test]
fn parse_rejects_garbage() {
    assert!(NvidiaEnvironment::from_toml("not a record").is_err());
}

#[test]
fn parse_rejects_empty_text() {
    assert!(NvidiaEnvironment::from_toml("").is_err());
}

#[test]
fn parse_rejects_missing_field() {
    let text = "checked_time = \"t\"\nkernel = \"k\"\nos = \"o\"\nnvidia_driver = \"d\"\ncuda = \"c\"\ncudnn = \"n\"\n";
    assert!(NvidiaEnvironment::from_toml(text).is_err());
}

#[test]
fn parse_rejects_unquoted_value() {
    let text = "checked_time = t\nkernel = \"k\"\nos = \"o\"\nnvidia_driver = \"d\"\ncuda = \"c\"\ncudnn = \"n\"\ntensorrt = \"r\"\n";
    assert!(NvidiaEnvironment::from_toml(text).is_err());
}

#[test]
fn parse_rejects_bad_escape() {
    let text = "checked_time = \"a\\qb\"\nkernel = \"k\"\nos = \"o\"\nnvidia_driver = \"d\"\ncuda = \"c\"\ncudnn = \"n\"\ntensorrt = \"r\"\n";
    assert!(NvidiaEnvironment::from_toml(text).is_err());
}

#[test]
fn parse_accepts_canonical_record() {
    let text = "checked_time = \"t\"\nkernel = \"k\"\nos = \"o\"\nnvidia_driver = \"d\"\ncuda = \"c\"\ncudnn = \"n\"\ntensorrt = \"r\"\n";
    let loaded = NvidiaEnvironment::from_toml(text).unwrap();
    assert_eq!(loaded.checked_time, "t");
    assert_eq!(loaded.kernel, "k");
    assert_eq!(loaded.os, "o");
    assert_eq!(loaded.nvidia_driver, "d");
    assert_eq!(loaded.cuda, "c");
    assert_eq!(loaded.cudnn, "n");
    assert_eq!(loaded.tensorrt, "r");
}

#[test]
fn record_is_valid_toml() {
    let text = sample().to_toml();
    let table: toml::Table = toml::from_str(&text).unwrap();
    assert_eq!(
        table.get("checked_time").unwrap().as_str(),
        Some("2023.11.20 10:00:00")
    );
    assert_eq!(table.get("os").unwrap().as_str(), Some("Ubuntu 22.04.3 LTS"));
    assert_eq!(table.get("kernel").unwrap().as_str(), Some("5.15.0-91-generic"));
    assert_eq!(table.get("nvidia_driver").unwrap().as_str(), Some("535.129.03"));
    assert_eq!(table.get("cuda").unwrap().as_str(), Some("cuda_12.3.r12.3"));
    assert_eq!(
        table.get("cudnn").unwrap().as_str(),
        Some("8.9.5.29-1+cuda12.2,8.9.5.30-1+cuda12.2")
    );
    assert_eq!(table.get("tensorrt").unwrap().as_str(), Some("8.6.1.6-1+cuda12.0"));
    assert_eq!(table.len(), 7);
}

#[test]
fn escaped_record_is_valid_toml() {
    let original = NvidiaEnvironment {
        checked_time: String::from("a\"b"),
        kernel: String::from("back\\slash"),
        os: String::from("line\nbreak"),
        nvidia_driver: String::from("tab\there"),
        cuda: String::from("cr\rhere"),
        cudnn: String::from(""),
        tensorrt: String::from("plain"),
    };
    let text = original.to_toml();
    let table: toml::Table = toml::from_str(&text).unwrap();
    assert_eq!(table.get("checked_time").unwrap().as_str(), Some("a\"b"));
    assert_eq!(table.get("kernel").unwrap().as_str(), Some("back\\slash"));
    assert_eq!(table.get("os").unwrap().as_str(), Some("line\nbreak"));
    assert_eq!(table.get("nvidia_driver").unwrap().as_str(), Some("tab\there"));
    assert_eq!(table.get("cuda").unwrap().as_str(), Some("cr\rhere"));
    assert_eq!(table.get("cudnn").unwrap().as_str(), Some(""));
    assert_eq!(table.get("tensorrt").unwrap().as_str(), Some("plain"));
}
