use wheel_cipher::CipherError;
use wheel_cipher::int_to_key;
use wheel_cipher::key_to_int;
use wheel_cipher::wheel_offset;

#[test]
fn key_to_int_digits_letters_punctuation() {
    assert_eq!(key_to_int('0'), Ok(0));
    assert_eq!(key_to_int('9'), Ok(9));
    assert_eq!(key_to_int('A'), Ok(10));
    assert_eq!(key_to_int('Z'), Ok(35));
    assert_eq!(key_to_int('a'), Ok(36));
    assert_eq!(key_to_int('z'), Ok(61));
    assert_eq!(key_to_int('.'), Ok(62));
    assert_eq!(key_to_int(','), Ok(63));
    assert_eq!(key_to_int('?'), Ok(64));
    assert_eq!(key_to_int('!'), Ok(65));
    assert_eq!(key_to_int('\''), Ok(66));
    assert_eq!(key_to_int('"'), Ok(67));
    assert_eq!(key_to_int(' '), Ok(68));
}

#[test]
fn key_to_int_rejects_foreign_characters() {
    assert_eq!(key_to_int('#'), Err(CipherError::InvalidSymbol));
    assert_eq!(key_to_int('-'), Err(CipherError::InvalidSymbol));
    assert_eq!(key_to_int('\n'), Err(CipherError::InvalidSymbol));
    assert_eq!(key_to_int('é'), Err(CipherError::InvalidSymbol));
}

#[test]
fn int_to_key_round_trips_codes() {
    for code in 0..69 {
        let symbol = int_to_key(code);
        assert_eq!(key_to_int(symbol), Ok(code));
    }
}

#[test]
fn int_to_key_is_total_and_periodic() {
    // the dial wraps: every integer maps like its Euclidean remainder
    assert_eq!(int_to_key(0), '0');
    assert_eq!(int_to_key(68), ' ');
    assert_eq!(int_to_key(69), '0');
    assert_eq!(int_to_key(70), '1');
    assert_eq!(int_to_key(-1), ' ');
    assert_eq!(int_to_key(-69), '0');
    assert_eq!(int_to_key(i32::MAX), int_to_key(i32::MAX % 69));
    assert_eq!(int_to_key(i32::MIN), int_to_key(i32::MIN.rem_euclid(69)));
    for n in -200..200 {
        assert_eq!(int_to_key(n), int_to_key(n.rem_euclid(69)));
    }
}

#[test]
fn wheel_offset_formula_and_periodicity() {
    // offset(w1, w2, w3) = (w1 - 2*w2 + 2*w3) mod 69
    assert_eq!(wheel_offset(6, 0, 0), 6);
    assert_eq!(wheel_offset(4, 7, 0), 59);
    assert_eq!(wheel_offset(0, 1, 0), 67);
    assert_eq!(wheel_offset(0, 0, 1), 2);
    let extreme = (i32::MIN as i64 - 2 * (i32::MAX as i64) + 2 * (i32::MIN as i64)).rem_euclid(69);
    assert_eq!(wheel_offset(i32::MIN, i32::MAX, i32::MIN), extreme as i32);
    for k in -3..4 {
        assert_eq!(wheel_offset(5 + 69 * k, 3, 7), wheel_offset(5, 3, 7));
        assert_eq!(wheel_offset(5, 3 + 69 * k, 7), wheel_offset(5, 3, 7));
        assert_eq!(wheel_offset(5, 3, 7 + 69 * k), wheel_offset(5, 3, 7));
    }
}
