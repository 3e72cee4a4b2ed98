use vector_store::{order_key, top_k};

#[test]
fn order_key_exact_values() {
    assert_eq!(order_key(0.0f32.to_bits()), 0x8000_0000);
    assert_eq!(order_key((-0.0f32).to_bits()), 0x8000_0000);
    assert_eq!(order_key(1.0f32.to_bits()), 0xBF80_0000);
    assert_eq!(order_key((-1.0f32).to_bits()), 0x4080_0000);
    assert_eq!(order_key(f32::INFINITY.to_bits()), 0xFF80_0000);
    assert_eq!(order_key(f32::NEG_INFINITY.to_bits()), 0x0080_0000);
    assert_eq!(order_key(f32::NAN.to_bits()), 0);
    assert_eq!(order_key(0xFFFF_FFFF), 0);
}

#[test]
fn order_key_follows_float_order() {
    let values = [
        f32::NEG_INFINITY,
        -3.5,
        -1.0,
        -1e-30,
        0.0,
        1e-30,
        0.707,
        1.0,
        f32::INFINITY,
    ];
    for w in values.windows(2) {
        assert!(order_key(w[0].to_bits()) < order_key(w[1].to_bits()));
    }
    assert!(order_key(f32::NAN.to_bits()) < order_key(f32::NEG_INFINITY.to_bits()));
}

#[test]
fn top_k_picks_best_in_order() {
    assert_eq!(top_k(&vec![5, 9, 5, 1], 3), vec![1, 0, 2]);
    assert_eq!(top_k(&vec![5, 9, 5, 1], 10), vec![1, 0, 2, 3]);
    assert_eq!(top_k(&vec![5, 9, 5, 1], 0), Vec::<usize>::new());
    assert_eq!(top_k(&vec![], 2), Vec::<usize>::new());
    assert_eq!(top_k(&vec![2, 2, 2], 2), vec![0, 1]);
}
