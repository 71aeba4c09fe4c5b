use orion_serve::error::EngineError;
use orion_serve::float::Float32;
use orion_serve::models::quantization::{
    assemble, group_bounds, pack, unpack, Element, QuantBits, QuantizedTensor, GROUP_SIZE,
};
use orion_serve::ratio::Ratio;

fn number(v: f32) -> Float32 {
    Float32 { bits: v.to_bits() }
}

fn value(r: Ratio) -> f64 {
    r.numerator as f64 / r.denominator as f64
}

fn tensor(codes: usize, bits: QuantBits) -> QuantizedTensor {
    let groups = codes.div_ceil(GROUP_SIZE);
    assemble(
        &vec![3; codes],
        vec![number(0.5); groups],
        vec![1; groups],
        bits,
    )
}

#[test]
fn quant_widths_report_their_levels() {
    assert_eq!(QuantBits::Int8.bits(), 8);
    assert_eq!(QuantBits::Int8.levels(), 256);
    assert_eq!(QuantBits::Int8.max_value(), 255);
    assert_eq!(QuantBits::Int4.bits(), 4);
    assert_eq!(QuantBits::Int4.levels(), 16);
    assert_eq!(QuantBits::Int4.max_value(), 15);
}

#[test]
fn widths_are_named() {
    assert_eq!(QuantBits::Int8.as_str(), "int8");
    assert_eq!(QuantBits::Int4.as_str(), "int4");
}

#[test]
fn four_bit_codes_share_bytes() {
    let q8 = tensor(1000, QuantBits::Int8);
    let q4 = tensor(1000, QuantBits::Int4);

    assert_eq!(q8.data.len(), 1000);
    assert_eq!(q4.data.len(), 500);
}

#[test]
fn compression_counts_the_metadata() {
    let q8 = tensor(4096, QuantBits::Int8);
    let q4 = tensor(4096, QuantBits::Int4);

    // Naive ratios would be 4x and 8x; metadata makes the real figures
    // lower, and this asserts we report the real ones.
    assert!(value(q8.compression_ratio()) < 4.0);
    assert!(value(q8.compression_ratio()) > 3.7);
    assert!(value(q4.compression_ratio()) < 8.0);
    assert!(value(q4.compression_ratio()) > 7.0);
    assert_eq!(q8.size_in_bytes(), 4096 + 32 * 8);
    assert_eq!(q8.num_groups(), 32);
}

#[test]
fn no_codes_make_an_empty_tensor() {
    let q = assemble(&[], vec![], vec![], QuantBits::Int8);
    assert_eq!(q.num_elements, 0);
    assert!(q.elements().is_empty());
    assert_eq!(value(q.compression_ratio()), 0.0);
}

#[test]
fn codes_round_trip_through_their_bytes() {
    for n in [0usize, 1, 2, 7, 128, 165] {
        let four: Vec<i32> = (0..n).map(|i| (i * 5 % 16) as i32).collect();
        let packed = pack(&four, QuantBits::Int4);
        assert_eq!(packed.len(), n.div_ceil(2));
        assert_eq!(unpack(&packed, QuantBits::Int4, n), four);
        let eight: Vec<i32> = (0..n).map(|i| (i * 37 % 256) as i32).collect();
        assert_eq!(
            unpack(&pack(&eight, QuantBits::Int8), QuantBits::Int8, n),
            eight
        );
    }
    assert_eq!(pack(&[1, 2, 3], QuantBits::Int4), vec![0x21, 0x03]);
}

#[test]
fn fewer_codes_than_asked_for_are_what_the_bytes_hold() {
    assert_eq!(unpack(&[0x21], QuantBits::Int4, 9), vec![1, 2]);
    assert_eq!(unpack(&[7, 8], QuantBits::Int8, 9), vec![7, 8]);
    assert_eq!(unpack(&[7, 8], QuantBits::Int8, 1), vec![7]);
}

#[test]
fn constants_are_carried_in_the_zero_point() {
    let values = vec![number(0.5); GROUP_SIZE];
    let bounds = group_bounds(&values).unwrap();
    assert!(bounds.is_constant());
    let q = assemble(
        &vec![0; GROUP_SIZE],
        vec![number(0.0)],
        vec![bounds.min.bits as i32],
        QuantBits::Int8,
    );
    for (i, v) in q.elements().iter().enumerate() {
        assert_eq!(
            *v,
            Element::Constant(number(0.5)),
            "element {i} was not reproduced exactly"
        );
    }
}

#[test]
fn elements_know_their_group() {
    // Length not a multiple of GROUP_SIZE, and odd for the int4 packing.
    let n = GROUP_SIZE + 37;
    let q = assemble(
        &vec![9; n],
        vec![number(1.0), number(2.0)],
        vec![4, -3],
        QuantBits::Int4,
    );
    let back = q.elements();
    assert_eq!(back.len(), n);
    assert_eq!(q.num_groups(), 2);
    assert_eq!(
        back[GROUP_SIZE - 1],
        Element::Steps {
            steps: 5,
            scale: number(1.0)
        }
    );
    assert_eq!(
        back[GROUP_SIZE],
        Element::Steps {
            steps: 12,
            scale: number(2.0)
        }
    );
}

#[test]
fn a_group_must_be_finite() {
    for (bad, text) in [
        (f32::NAN, "NaN"),
        (f32::INFINITY, "inf"),
        (f32::NEG_INFINITY, "-inf"),
    ] {
        let mut values = vec![number(0.1); GROUP_SIZE];
        values[5] = number(bad);
        let err = group_bounds(&values).unwrap_err();
        assert!(
            matches!(err, EngineError::Internal(ref t)
                if *t == format!("cannot quantize a group containing a non-finite value ({bad})")),
            "accepted {bad} in a weight tensor"
        );
        assert!(err.message().contains(text));
    }
}

#[test]
fn bounds_are_the_smallest_and_the_largest_value() {
    let values: Vec<Float32> = [0.5f32, -2.0, 3.25, 0.0]
        .iter()
        .map(|v| number(*v))
        .collect();
    let b = group_bounds(&values).unwrap();
    assert_eq!(b.min, number(-2.0));
    assert_eq!(b.max, number(3.25));
    assert!(!b.is_constant());
}
