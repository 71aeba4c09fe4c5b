use orion_serve::cuda::{
    device_count, is_available, validate, Comparison, CudaBackend, CudaUnavailable,
    ValidationReport,
};
use orion_serve::error::EngineError;
use orion_serve::float::Float32;

fn bits(v: f32) -> Float32 {
    Float32 { bits: v.to_bits() }
}

fn number(v: Float32) -> f32 {
    f32::from_bits(v.bits)
}

/// How far two outputs may differ.
#[derive(Debug, Clone, Copy)]
struct Tolerance {
    /// For values near zero, where relative error explodes.
    abs: f32,
    /// For values with meaningful magnitude.
    rel: f32,
}

impl Tolerance {
    /// For single-precision kernels.
    const SINGLE: Tolerance = Tolerance {
        abs: 1e-5,
        rel: 1e-5,
    };

    /// For half-precision kernels, which have about 11 bits of mantissa.
    const HALF: Tolerance = Tolerance {
        abs: 1e-2,
        rel: 1e-2,
    };

    /// Whether two values agree within this tolerance (floating point).
    fn matches(&self, expected: f32, actual: f32) -> bool {
        if !expected.is_finite() || !actual.is_finite() {
            return expected.to_bits() == actual.to_bits();
        }
        let diff = (expected - actual).abs();
        diff <= self.abs || diff <= self.rel * expected.abs()
    }

    /// How one element compares with the reference (floating point).
    fn compare(&self, e: f32, a: f32) -> Comparison {
        let errors = (e.is_finite() && a.is_finite()).then(|| {
            let abs = (e - a).abs();
            let rel = if e.abs() > f32::EPSILON {
                abs / e.abs()
            } else {
                0.0
            };
            (bits(abs), bits(rel))
        });
        Comparison {
            agrees: self.matches(e, a),
            errors,
        }
    }
}

/// Compares a kernel's output against the reference.
fn compared(
    kernel: &str,
    expected: &[f32],
    actual: &[f32],
    tol: Tolerance,
) -> Result<ValidationReport, EngineError> {
    let comparisons: Vec<Comparison> = expected
        .iter()
        .zip(actual)
        .map(|(&e, &a)| tol.compare(e, a))
        .collect();
    validate(kernel, expected.len(), actual.len(), &comparisons)
}

#[test]
fn this_build_has_no_cuda() {
    // The honest statement of what this crate currently is. If this test
    // ever fails, CUDA has genuinely been enabled and every claim in the
    // module docs needs revisiting.
    assert!(!is_available());
    assert_eq!(device_count(), 0);
}

#[test]
fn opening_a_device_fails_rather_than_returning_a_dead_handle() {
    // A non-functional backend that constructs successfully is how callers
    // end up believing they are on a GPU.
    let err = CudaBackend::new(0).unwrap_err();
    assert_eq!(err, CudaUnavailable::FeatureDisabled);
    assert!(err.message().contains("--features cuda"));
}

#[test]
fn unavailability_reasons_are_distinguishable() {
    let cases = [
        CudaUnavailable::FeatureDisabled,
        CudaUnavailable::NoDriver,
        CudaUnavailable::NoDevices,
        CudaUnavailable::NoSuchDevice {
            requested: 3,
            available: 1,
        },
    ];
    let messages: std::collections::HashSet<String> =
        cases.iter().map(|c| c.message()).collect();
    assert_eq!(messages.len(), cases.len(), "messages must be distinct");
}









#[test]
fn synchronize_is_required_for_honest_timing() {
    // Documented here as an executable reminder: a CUDA backend that does
    // not synchronize makes every kernel look instantaneous.
    //
    // The backend cannot be constructed in this build, so this asserts the
    // contract on the error path instead.
    assert!(CudaBackend::new(0).is_err());
}

#[test]
fn identical_output_validates() {
    let reference = vec![1.0, 2.0, 3.0, -4.0];
    let report = compared("test", &reference, &reference, Tolerance::SINGLE).unwrap();
    assert!(report.passed());
    assert_eq!(report.mismatches, 0);
    assert_eq!(report.max_abs_error, Float32::zero());
    assert_eq!(report.worst_index, None);
}

#[test]
fn a_structurally_wrong_kernel_fails() {
    let reference = vec![1.0, 2.0, 3.0];
    let actual = vec![1.0, 2.0, 30.0];
    let report = compared("test", &reference, &actual, Tolerance::SINGLE).unwrap();

    assert!(!report.passed());
    assert_eq!(report.mismatches, 1);
    assert_eq!(report.worst_index, Some(2));
    assert!(report.render("2.700e1", "9.000e0").contains("FAIL"));
}

#[test]
fn a_report_is_one_line() {
    let report = compared("test", &[1.0, 2.0, 3.0], &[1.0, 2.0, 30.0], Tolerance::SINGLE).unwrap();
    assert_eq!(
        report.render("2.700e1", "9.000e0"),
        "test: FAIL \u{2014} 1/3 elements differ (max abs 2.700e1, max rel 9.000e0, worst at Some(2))"
    );
    let report = compared("k", &[1.0, 2.0], &[1.0, 2.0], Tolerance::SINGLE).unwrap();
    assert_eq!(
        report.render("0e0", "0e0"),
        "k: PASS (2 elements, max abs 0e0, max rel 0e0)"
    );
}

#[test]
fn a_shape_mismatch_is_an_error_not_a_failed_comparison() {
    // Comparing different-length outputs is a bug in the harness, not a
    // kernel result.
    let err = compared("t", &[1.0, 2.0], &[1.0], Tolerance::SINGLE).unwrap_err();
    assert!(matches!(err, EngineError::Internal(_)));
    assert!(err.message().contains("shape mismatch"));
}

#[test]
fn the_report_names_the_worst_offender() {
    let reference = vec![1.0, 2.0, 3.0, 4.0];
    let actual = vec![1.0, 2.5, 3.0, 4.0];
    let report = compared("k", &reference, &actual, Tolerance::SINGLE).unwrap();
    assert_eq!(report.worst_index, Some(1));
    assert!((number(report.max_abs_error) - 0.5).abs() < 1e-6);
}

#[test]
fn the_first_of_equal_offenders_is_the_worst() {
    let reference = vec![1.0, 2.0, 3.0, 4.0];
    let actual = vec![1.0, 2.5, 3.0, 4.5];
    let report = compared("k", &reference, &actual, Tolerance::SINGLE).unwrap();
    assert_eq!(report.worst_index, Some(1));
    assert_eq!(number(report.max_abs_error), 0.5);
    assert_eq!(number(report.max_rel_error), 0.25);
    assert_eq!(report.mismatches, 2);
    assert_eq!(report.elements, 4);
    assert_eq!(report.kernel, "k");
}

#[test]
fn small_differences_pass_within_tolerance() {
    // Reassociated reductions and FMA produce differences of this order.
    let reference = vec![1.0, 100.0, 1000.0];
    let actual = vec![1.000001, 100.0005, 1000.005];
    let report = compared("test", &reference, &actual, Tolerance::SINGLE).unwrap();
    assert!(report.passed(), "{report:?}");
}

#[test]
fn half_precision_tolerance_is_looser_than_single() {
    // Half precision has about 11 bits of mantissa. Demanding single-precision
    // tolerance from a correct half-precision kernel would fail it.
    let reference = vec![1.0, 10.0];
    let actual = vec![1.004, 10.04];

    assert!(!compared("t", &reference, &actual, Tolerance::SINGLE)
        .unwrap()
        .passed());
    assert!(compared("t", &reference, &actual, Tolerance::HALF)
        .unwrap()
        .passed());
}

#[test]
fn absolute_tolerance_covers_values_near_zero() {
    // Relative error is meaningless at zero; without the absolute term a
    // correct kernel would fail on any near-zero output.
    let reference = vec![0.0, 1e-9];
    let actual = vec![1e-7, 2e-7];
    assert!(compared("t", &reference, &actual, Tolerance::SINGLE)
        .unwrap()
        .passed());
}

#[test]
fn a_nan_only_matches_a_nan() {
    let report = compared("t", &[f32::NAN], &[f32::NAN], Tolerance::SINGLE).unwrap();
    assert!(report.passed(), "NaN should match itself");

    let report = compared("t", &[f32::NAN], &[1.0], Tolerance::SINGLE).unwrap();
    assert!(!report.passed(), "NaN must not match a finite value");

    let report = compared("t", &[1.0], &[f32::INFINITY], Tolerance::SINGLE).unwrap();
    assert!(!report.passed(), "infinity must not match a finite value");
}
