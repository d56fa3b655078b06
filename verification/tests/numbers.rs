use sigcheck::number::{count, from_byte, Count};
use sigcheck::text::push_decimal;

fn expected(n: f64) -> Count {
    if n.fract() == 0.0 && n >= 0.0 {
        Count::Natural(n as usize)
    } else if n.is_infinite() {
        Count::Infinite
    } else {
        Count::Neither
    }
}

#[test]
fn counts_of_chosen_numbers() {
    assert_eq!(count(0.0f64.to_bits()), Count::Natural(0));
    assert_eq!(count((-0.0f64).to_bits()), Count::Natural(0));
    assert_eq!(count(1.0f64.to_bits()), Count::Natural(1));
    assert_eq!(count(3.0f64.to_bits()), Count::Natural(3));
    assert_eq!(count(1000000.0f64.to_bits()), Count::Natural(1000000));
    assert_eq!(count(9007199254740993.0f64.to_bits()), Count::Natural(9007199254740992));
    assert_eq!(count(1e300f64.to_bits()), Count::Natural(usize::MAX));
    assert_eq!(count(f64::INFINITY.to_bits()), Count::Infinite);
    assert_eq!(count(f64::NEG_INFINITY.to_bits()), Count::Infinite);
    assert_eq!(count(f64::NAN.to_bits()), Count::Neither);
    assert_eq!(count(2.5f64.to_bits()), Count::Neither);
    assert_eq!(count(0.5f64.to_bits()), Count::Neither);
    assert_eq!(count((-1.0f64).to_bits()), Count::Neither);
    assert_eq!(count(f64::MIN_POSITIVE.to_bits()), Count::Neither);
    assert_eq!(count(5e-324f64.to_bits()), Count::Neither);
}

#[test]
fn counts_agree_with_float_arithmetic() {
    for exponent in 0..2048u64 {
        for fraction in [
            0u64,
            1,
            1 << 20,
            1 << 40,
            1 << 51,
            (1 << 51) | 1,
            (1 << 52) - 1,
            (1 << 52) - (1 << 30),
        ] {
            for sign in [0u64, 1] {
                let bits = (sign << 63) | (exponent << 52) | fraction;
                assert_eq!(count(bits), expected(f64::from_bits(bits)), "bits {:x}", bits);
            }
        }
    }
}

#[test]
fn bytes_become_the_same_numbers() {
    for byte in 0..=255u8 {
        assert_eq!(from_byte(byte), (byte as f64).to_bits());
        assert_eq!(count(from_byte(byte)), Count::Natural(byte as usize));
    }
}

#[test]
fn decimal_text() {
    for n in [0usize, 7, 10, 19, 100, 4096, 1000000, usize::MAX] {
        let mut text = String::from("n = ");
        push_decimal(&mut text, n);
        assert_eq!(text, format!("n = {}", n));
    }
}
