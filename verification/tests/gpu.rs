use mvitop::gpu::UnavailableGpu;

#[test]
fn collector_failure_is_local() {
    let gpu = UnavailableGpu::new("not supported".to_string());
    assert!(gpu.static_info().is_err());
    assert_eq!(gpu.sample_error(), "not supported");
}

#[test]
fn the_reason_is_reported_every_time() {
    let gpu = UnavailableGpu::new("no AGXAccelerator".to_string());
    assert_eq!(gpu.static_info().err().unwrap(), "no AGXAccelerator");
    assert_eq!(gpu.sample_error(), gpu.sample_error());
}
