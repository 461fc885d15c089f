use brioche_cache::config::{
    default_bind_address, default_bind_metrics_address, default_max_bake_outputs,
    default_max_disk_capacity, default_max_project_sources, is_supported_upstream_scheme,
};

#[test]
fn config_defaults() {
    assert_eq!(default_bind_address(), "0.0.0.0:3000");
    assert_eq!(default_bind_metrics_address(), "0.0.0.0:3001");
    assert_eq!(default_max_disk_capacity(), 1_000_000_000);
    assert_eq!(default_max_project_sources(), 10_000);
    assert_eq!(default_max_bake_outputs(), 10_000);
}

#[test]
fn upstream_schemes() {
    assert!(is_supported_upstream_scheme("http"));
    assert!(is_supported_upstream_scheme("https"));
    assert!(!is_supported_upstream_scheme("s3"));
    assert!(!is_supported_upstream_scheme("HTTP"));
    assert!(!is_supported_upstream_scheme(""));
}

#[test]
fn gigabytes_in_bytes() {
    assert_eq!(brioche_cache::config::gigabytes(0), 0);
    assert_eq!(brioche_cache::config::gigabytes(3), 3_000_000_000);
    assert_eq!(
        brioche_cache::config::gigabytes(7),
        bytesize::ByteSize::gb(7).as_u64()
    );
}
