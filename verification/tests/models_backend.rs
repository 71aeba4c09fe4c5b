use orion_serve::models::backend::CpuBackend;
use orion_serve::traits::{Backend, DType, Device};

#[test]
fn the_cpu_backend_identifies_itself() {
    let b = CpuBackend::new();
    assert_eq!(b.name(), "cpu");
    assert_eq!(b.device(), Device::Cpu);
    assert!(b.device().is_cpu());
}

#[test]
fn synchronize_is_a_no_op() {
    assert!(CpuBackend::new().synchronize().is_ok());
}

#[test]
fn memory_reporting_is_unavailable_so_the_pool_must_be_configured() {
    let b = CpuBackend::new();
    assert!(b.total_memory().is_none());
    assert!(b.available_memory().is_none());
}

#[test]
fn only_f32_is_natively_supported() {
    let b = CpuBackend::new();
    assert!(b.supports_dtype(DType::F32));
    for d in [DType::F16, DType::BF16, DType::I8, DType::I4] {
        assert!(!b.supports_dtype(d), "{d:?} should not be native");
    }
}
