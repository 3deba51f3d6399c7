use gumbel_top_bucket::{order_key, SIGN_BIT};

#[test]
fn order_key_exact_values() {
    assert_eq!(order_key(0), SIGN_BIT);
    assert_eq!(order_key(SIGN_BIT), SIGN_BIT - 1);
    assert_eq!(order_key(u64::MAX), 0);
    assert_eq!(order_key(1.0f64.to_bits()), 1.0f64.to_bits() + SIGN_BIT);
    assert_eq!(order_key((-1.0f64).to_bits()), u64::MAX - (-1.0f64).to_bits());
}

#[test]
fn order_key_follows_total_order_of_doubles() {
    let values = [
        -f64::NAN,
        f64::NEG_INFINITY,
        -1e300,
        -1.0,
        -1e-300,
        -0.0,
        0.0,
        1e-300,
        0.5,
        1.0,
        1e300,
        f64::INFINITY,
        f64::NAN,
    ];
    for a in values.iter() {
        for b in values.iter() {
            assert_eq!(
                order_key(a.to_bits()).cmp(&order_key(b.to_bits())),
                a.total_cmp(b)
            );
        }
    }
}
