//! The library's groups and packing, run with plain floating-point arithmetic.

use orion_serve::error::EngineError;
use orion_serve::float::Float32;
use orion_serve::models::quantization::{
    assemble, group_bounds, group_spans, Element, QuantBits, QuantizedTensor, GROUP_SIZE,
};

fn number(v: Float32) -> f32 {
    f32::from_bits(v.bits)
}

fn bits(v: f32) -> Float32 {
    Float32 { bits: v.to_bits() }
}

fn ratio(q: &QuantizedTensor) -> f64 {
    let r = q.compression_ratio();
    r.numerator as f64 / r.denominator as f64
}

/// A weight-like distribution: roughly normal, centred near zero.
fn weights(n: usize, seed: f32) -> Vec<f32> {
    (0..n)
        .map(|i| {
            let x = i as f32 * 0.017 + seed;
            (x.sin() + x.cos() * 0.5) * 0.1
        })
        .collect()
}

/// Quantizes values group-wise and asymmetrically (floating point): each group
/// gets a scale and a zero-point that map `[min, max]` onto the full range.
fn quantize(values: &[f32], width: QuantBits) -> Result<QuantizedTensor, EngineError> {
    let spans = group_spans(values.len());
    let mut scales = Vec::with_capacity(spans.len());
    let mut zero_points = Vec::with_capacity(spans.len());
    let mut codes: Vec<i32> = Vec::with_capacity(values.len());

    for (begin, end) in spans {
        let group = &values[begin..end];
        let row: Vec<Float32> = group.iter().map(|v| bits(*v)).collect();
        let bounds = group_bounds(&row)?;
        if bounds.is_constant() {
            // The zero-point carries the value itself, so that it is
            // reproduced exactly.
            codes.extend(group.iter().map(|_| 0));
            scales.push(bits(0.0));
            zero_points.push(bounds.min.bits as i32);
            continue;
        }
        let (min, max) = (number(bounds.min), number(bounds.max));
        let scale = (max - min) / width.max_value() as f32;
        let zero_point = (-min / scale).round() as i32;
        for &v in group {
            let code = ((v / scale).round() as i32).saturating_add(zero_point);
            codes.push(code.clamp(0, width.max_value()));
        }
        scales.push(bits(scale));
        zero_points.push(zero_point);
    }
    Ok(assemble(&codes, scales, zero_points, width))
}

/// Reconstructs values from a quantized tensor (floating point).
fn dequantize(tensor: &QuantizedTensor) -> Vec<f32> {
    tensor
        .elements()
        .into_iter()
        .map(|e| match e {
            Element::Constant(v) => number(v),
            Element::Steps { steps, scale } => steps as f32 * number(scale),
        })
        .collect()
}

/// Quantization error statistics.
#[derive(Debug, Clone, Copy)]
struct QuantizationError {
    max_abs_error: f32,
    mean_abs_error: f32,
    /// Root-mean-square error relative to the RMS of the original values, which
    /// does not depend on their magnitude.
    relative_rmse: f32,
}

/// Measures how much a quantization round trip changed the values (floating
/// point).
fn measure_error(original: &[f32], reconstructed: &[f32]) -> QuantizationError {
    if original.is_empty() || original.len() != reconstructed.len() {
        return QuantizationError {
            max_abs_error: 0.0,
            mean_abs_error: 0.0,
            relative_rmse: 0.0,
        };
    }
    let mut max_abs = 0.0f32;
    let mut sum_abs = 0.0f64;
    let mut sum_sq_err = 0.0f64;
    let mut sum_sq_orig = 0.0f64;
    for (&o, &r) in original.iter().zip(reconstructed.iter()) {
        let err = (o - r).abs();
        max_abs = max_abs.max(err);
        sum_abs += err as f64;
        sum_sq_err += (err as f64) * (err as f64);
        sum_sq_orig += (o as f64) * (o as f64);
    }
    let n = original.len() as f64;
    let rmse = (sum_sq_err / n).sqrt();
    let rms_orig = (sum_sq_orig / n).sqrt();
    QuantizationError {
        max_abs_error: max_abs,
        mean_abs_error: (sum_abs / n) as f32,
        relative_rmse: if rms_orig > 0.0 {
            (rmse / rms_orig) as f32
        } else {
            0.0
        },
    }
}

#[test]
fn int8_round_trip_is_close() {
    let original = weights(1024, 0.0);
    let q = quantize(&original, QuantBits::Int8).unwrap();
    let back = dequantize(&q);

    assert_eq!(back.len(), original.len());
    let err = measure_error(&original, &back);
    assert!(
        err.relative_rmse < 0.01,
        "int8 relative RMSE {} is too high",
        err.relative_rmse
    );
}

#[test]
fn int4_round_trip_is_coarser_but_bounded() {
    let original = weights(1024, 1.0);
    let q = quantize(&original, QuantBits::Int4).unwrap();
    let back = dequantize(&q);

    let err = measure_error(&original, &back);
    assert!(
        err.relative_rmse < 0.15,
        "int4 relative RMSE {} is too high",
        err.relative_rmse
    );
}

#[test]
fn int4_is_measurably_worse_than_int8() {
    // The tradeoff has to be visible, or the test is not checking anything.
    let original = weights(2048, 2.0);

    let e8 = measure_error(
        &original,
        &dequantize(&quantize(&original, QuantBits::Int8).unwrap()),
    );
    let e4 = measure_error(
        &original,
        &dequantize(&quantize(&original, QuantBits::Int4).unwrap()),
    );

    assert!(
        e4.relative_rmse > e8.relative_rmse,
        "int4 ({}) should be less accurate than int8 ({})",
        e4.relative_rmse,
        e8.relative_rmse
    );
}

#[test]
fn group_wise_scaling_survives_an_outlier() {
    // The reason for group-wise rather than per-tensor scales: one huge
    // value must not destroy precision everywhere else.
    let mut values = vec![0.01f32; GROUP_SIZE * 4];
    values[GROUP_SIZE * 2] = 1000.0; // outlier in group 2

    let q = quantize(&values, QuantBits::Int8).unwrap();
    let back = dequantize(&q);

    // Groups away from the outlier keep their precision.
    let clean_error = (values[0] - back[0]).abs();
    assert!(
        clean_error < 0.001,
        "an outlier in another group degraded this one: {clean_error}"
    );
    assert_eq!(q.num_groups(), 4);
}

#[test]
fn all_zeros_round_trip_exactly() {
    let values = vec![0.0f32; 256];
    let back = dequantize(&quantize(&values, QuantBits::Int4).unwrap());
    assert!(back.iter().all(|&v| v == 0.0));
}

#[test]
fn asymmetric_quantization_uses_the_full_range_on_one_sided_data() {
    // Post-activation weights are frequently one-sided. Symmetric
    // quantization would waste half the levels on values that never occur.
    let values: Vec<f32> = (0..GROUP_SIZE).map(|i| i as f32 * 0.01).collect();
    let q = quantize(&values, QuantBits::Int8).unwrap();
    let back = dequantize(&q);

    let err = measure_error(&values, &back);
    assert!(
        err.relative_rmse < 0.01,
        "one-sided data quantized poorly: {}",
        err.relative_rmse
    );
}

#[test]
fn error_measurement_is_scale_invariant() {
    // The same relative error should be reported whether weights are tiny
    // or huge, which is why relative_rmse exists.
    let small: Vec<f32> = weights(512, 0.0);
    let large: Vec<f32> = small.iter().map(|v| v * 1000.0).collect();

    let e_small = measure_error(
        &small,
        &dequantize(&quantize(&small, QuantBits::Int8).unwrap()),
    );
    let e_large = measure_error(
        &large,
        &dequantize(&quantize(&large, QuantBits::Int8).unwrap()),
    );

    assert!(
        (e_small.relative_rmse - e_large.relative_rmse).abs() < 0.002,
        "{} vs {}",
        e_small.relative_rmse,
        e_large.relative_rmse
    );
    // Absolute error, by contrast, scales with the data.
    assert!(e_large.max_abs_error > e_small.max_abs_error * 100.0);
}

#[test]
fn compression_ratios_are_reported_honestly() {
    let original = weights(4096, 0.0);

    let q8 = quantize(&original, QuantBits::Int8).unwrap();
    let q4 = quantize(&original, QuantBits::Int4).unwrap();

    // Naive ratios would be 4x and 8x; metadata makes the real figures
    // lower, and this asserts we report the real ones.
    assert!(ratio(&q8) < 4.0);
    assert!(ratio(&q8) > 3.7, "{}", ratio(&q8));
    assert!(ratio(&q4) < 8.0);
    assert!(ratio(&q4) > 7.0, "{}", ratio(&q4));
}

#[test]
fn packing_halves_the_bytes_for_int4() {
    let original = weights(1000, 0.0);
    let q8 = quantize(&original, QuantBits::Int8).unwrap();
    let q4 = quantize(&original, QuantBits::Int4).unwrap();

    assert_eq!(q8.data.len(), 1000);
    assert_eq!(q4.data.len(), 500);
}

#[test]
fn a_constant_group_is_reproduced_exactly() {
    // Zero range would divide by zero in a naive implementation.
    let values = vec![0.5f32; GROUP_SIZE];
    let q = quantize(&values, QuantBits::Int8).unwrap();
    let back = dequantize(&q);

    for (i, &v) in back.iter().enumerate() {
        assert_eq!(v, 0.5, "element {i} was not reproduced exactly");
    }
}

#[test]
fn an_empty_tensor_is_handled() {
    let q = quantize(&[], QuantBits::Int8).unwrap();
    assert_eq!(q.num_elements, 0);
    assert!(dequantize(&q).is_empty());
    assert_eq!(ratio(&q), 0.0);
}

#[test]
fn a_partial_final_group_is_handled() {
    // Length not a multiple of GROUP_SIZE, and odd for the int4 packing.
    let original = weights(GROUP_SIZE + 37, 0.0);
    let q = quantize(&original, QuantBits::Int4).unwrap();
    let back = dequantize(&q);

    assert_eq!(back.len(), original.len());
    assert_eq!(q.num_groups(), 2);
    let err = measure_error(&original, &back);
    assert!(err.relative_rmse < 0.2);
}

#[test]
fn non_finite_weights_are_rejected_rather_than_silently_encoded() {
    // A NaN quantized into an integer becomes a plausible-looking value,
    // which is far worse than a load failure.
    for bad in [f32::NAN, f32::INFINITY, f32::NEG_INFINITY] {
        let mut values = weights(GROUP_SIZE, 0.0);
        values[5] = bad;
        assert!(
            quantize(&values, QuantBits::Int8).is_err(),
            "accepted {bad} in a weight tensor"
        );
    }
}

#[test]
fn groups_follow_one_another_to_the_end() {
    assert!(group_spans(0).is_empty());
    assert_eq!(group_spans(1), vec![(0, 1)]);
    assert_eq!(group_spans(GROUP_SIZE), vec![(0, 128)]);
    assert_eq!(group_spans(300), vec![(0, 128), (128, 256), (256, 300)]);
}
