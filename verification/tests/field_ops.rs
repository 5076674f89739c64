use stark_core::field::{batch_inversion, get_root_of_unity, Felt, GENERATOR, P};
use stark_core::codec::{elements_as_bytes, read_elements};

fn f(v: u64) -> Felt {
    Felt::new(v)
}

#[test]
fn add_sub_mul_wrap_around_the_modulus() {
    assert_eq!(f(200).add(f(100)).v, 43); // 300 - 257
    assert_eq!(f(3).sub(f(5)).v, 255); // -2 mod 257
    assert_eq!(f(16).mul(f(17)).v, 15); // 272 - 257
    assert_eq!(f(0).neg().v, 0);
    assert_eq!(f(1).neg().v, 256);
}

#[test]
fn exp_and_inverse_agree_with_known_values() {
    // 3 generates the multiplicative group: 3^128 == -1, 3^256 == 1
    assert_eq!(f(GENERATOR).exp(128).v, 256);
    assert_eq!(f(GENERATOR).exp(256).v, 1);
    // 3 * 86 == 258 == 1 (mod 257)
    assert_eq!(f(3).inv().v, 86);
    for v in 1..P {
        assert_eq!(f(v).mul(f(v).inv()).v, 1);
    }
}

#[test]
fn division_undoes_multiplication() {
    let a = f(123);
    let b = f(45);
    assert_eq!(a.mul(b).div(b).v, a.v);
}

#[test]
fn batch_inversion_inverts_every_entry() {
    let values = vec![f(1), f(2), f(100), f(256), f(86)];
    let inverses = batch_inversion(&values);
    assert_eq!(inverses.len(), values.len());
    for (v, inv) in values.iter().zip(inverses.iter()) {
        assert_eq!(v.mul(*inv).v, 1);
    }
}

#[test]
fn batch_inversion_of_a_zero_entry_returns_zeros() {
    let values = vec![f(1), f(0), f(2)];
    let inverses = batch_inversion(&values);
    assert_eq!(inverses.len(), 3);
    assert!(inverses.iter().all(|x| x.v == 0));
}

#[test]
fn roots_of_unity_have_the_right_order() {
    for k in 0..=8u64 {
        let g = get_root_of_unity(k);
        let order = 1u64 << k;
        assert_eq!(g.exp(order).v, 1, "g^2^{} must be 1", k);
        if k > 0 {
            assert_ne!(g.exp(order / 2).v, 1, "root of order 2^{} is primitive", k);
        }
    }
}

#[test]
fn element_codec_round_trips() {
    let values = vec![f(0), f(1), f(255), f(256), f(130)];
    let bytes = elements_as_bytes(&values);
    assert_eq!(bytes.len(), values.len() * 8);
    let decoded = read_elements(&bytes).expect("canonical bytes decode");
    assert_eq!(decoded.len(), values.len());
    for (a, b) in values.iter().zip(decoded.iter()) {
        assert_eq!(a.v, b.v);
    }
}

#[test]
fn element_codec_rejects_bad_buffers() {
    // length not a multiple of the element width
    assert!(read_elements(&vec![0u8; 7]).is_none());
    // a chunk at or above the modulus
    let mut bytes = vec![0u8; 8];
    bytes[0] = 0x01;
    bytes[1] = 0x01; // 257
    assert!(read_elements(&bytes).is_none());
}
