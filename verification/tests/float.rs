use orion_serve::float::Float32;

fn number(v: f32) -> Float32 {
    Float32 { bits: v.to_bits() }
}

#[test]
fn comparisons_agree_with_the_hardware() {
    let all = [
        0.0f32,
        -0.0,
        1.0,
        -1.0,
        f32::MIN_POSITIVE,
        -f32::MIN_POSITIVE,
        1.0e-45,
        -1.0e-45,
        f32::MAX,
        f32::MIN,
        f32::INFINITY,
        f32::NEG_INFINITY,
        f32::NAN,
        -f32::NAN,
        0.9,
        3.5,
    ];
    for a in all {
        assert_eq!(number(a).is_nan(), a.is_nan());
        assert_eq!(number(a).is_finite(), a.is_finite());
        for b in all {
            assert_eq!(number(a).lt(number(b)), a < b, "{a} < {b}");
            assert_eq!(number(a).equals(number(b)), a == b, "{a} == {b}");
        }
    }
    assert_eq!(Float32::zero(), number(0.0));
    assert_eq!(Float32::one(), number(1.0));
}
