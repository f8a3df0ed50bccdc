use tabdiff::float;

#[test]
fn product_rounds_like_the_machine() {
    let values = [0.0f64, 1.0, 0.1, 1e-300, 5e-324, 1e300, f64::MAX, f64::MIN_POSITIVE, 3.5, 1e-9, f64::INFINITY, 0.3333333333333333];
    for x in values {
        for y in values {
            for sign in [1.0, -1.0] {
                let expected = (sign * x) * y;
                let got = f64::from_bits(float::multiply((sign * x).to_bits(), y.to_bits()));
                assert!(expected.is_nan() && got.is_nan() || expected.to_bits() == got.to_bits(), "{x} {y}");
            }
        }
    }
}
