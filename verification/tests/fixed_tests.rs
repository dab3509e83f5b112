use mcserv::fixed;

#[test]
fn doubles_floor_onto_the_grid() {
    assert_eq!(fixed::fixed_of_bits(0f64.to_bits()), Some(0));
    assert_eq!(fixed::fixed_of_bits(1.0f64.to_bits()), Some(16384));
    assert_eq!(fixed::fixed_of_bits(1.5f64.to_bits()), Some(24576));
    assert_eq!(fixed::fixed_of_bits((-1.0f64).to_bits()), Some(-16384));
    // flooring: a value just below zero lands one step down
    assert_eq!(fixed::fixed_of_bits((-0.00001f64).to_bits()), Some(-1));
    assert_eq!(fixed::fixed_of_bits((-0.0f64).to_bits()), Some(0));
    assert_eq!(fixed::fixed_of_bits(16.25f64.to_bits()), Some(16 * 16384 + 4096));
}

#[test]
fn non_finite_and_huge_doubles_are_rejected() {
    assert_eq!(fixed::fixed_of_bits(f64::NAN.to_bits()), None);
    assert_eq!(fixed::fixed_of_bits(f64::INFINITY.to_bits()), None);
    assert_eq!(fixed::fixed_of_bits(f64::NEG_INFINITY.to_bits()), None);
    assert_eq!(fixed::fixed_of_bits(1.0e20f64.to_bits()), None);
    assert_eq!(fixed::fixed_of_bits((-1.0e20f64).to_bits()), None);
}

#[test]
fn stored_coordinates_convert_to_exact_doubles() {
    for &m in [0i64, 1, -1, 16384, -16384, 24576, 123456789, -987654321].iter() {
        let bits = fixed::bits_of_fixed(m);
        let expect = (m as f64) / 16384.0;
        assert_eq!(bits, expect.to_bits());
        // and the trip back is the identity
        assert_eq!(fixed::fixed_of_bits(bits), Some(m));
    }
}

#[test]
fn block_and_chunk_floors() {
    assert_eq!(fixed::block_of_fixed(0), 0);
    assert_eq!(fixed::block_of_fixed(16383), 0);
    assert_eq!(fixed::block_of_fixed(16384), 1);
    assert_eq!(fixed::block_of_fixed(-1), -1);
    assert_eq!(fixed::block_of_fixed(-16384), -1);
    assert_eq!(fixed::block_of_fixed(-16385), -2);
    assert_eq!(fixed::chunk_of_fixed(0), 0);
    assert_eq!(fixed::chunk_of_fixed(16 * 16384 - 1), 0);
    assert_eq!(fixed::chunk_of_fixed(16 * 16384), 1);
    assert_eq!(fixed::chunk_of_fixed(-1), -1);
}
