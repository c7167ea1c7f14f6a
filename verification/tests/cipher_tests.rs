use wheel_cipher::CipherError;
use wheel_cipher::decrypt;
use wheel_cipher::decrypt_iv;
use wheel_cipher::encrypt;
use wheel_cipher::encrypt_i;
use wheel_cipher::encrypt_ii;
use wheel_cipher::encrypt_iv;

#[test]
fn single_wheel_constant_shift() {
    // a constant shift of 6 over the alphabet
    let out = encrypt_i("Strong NE Winds!", 6).unwrap();
    assert_eq!(out, "Yzxutm5TK5cotjy2");
}

#[test]
fn single_wheel_constant_shift_decrypts() {
    let back = decrypt("Yzxutm5TK5cotjy2", 6, 0, false).unwrap();
    assert_eq!(back, "Strong NE Winds!");
}

#[test]
fn length_is_preserved() {
    let texts = ["", "A", "Strong NE Winds!", "one symbol in, one symbol out"];
    for text in texts {
        let out = encrypt_iv(text, 9, 3).unwrap();
        assert_eq!(out.chars().count(), text.chars().count());
        let out = encrypt_ii(text, 9, 3).unwrap();
        assert_eq!(out.chars().count(), text.chars().count());
    }
}

#[test]
fn round_trip_all_configurations() {
    let text = "The Desert Fox will move 30 tanks to Calais at dawn";
    for &(w1, w2) in &[(0, 0), (6, 0), (9, 3), (68, 68), (1, 35)] {
        for &feedback in &[false, true] {
            let ct = encrypt(text, w1, w2, feedback).unwrap();
            let back = decrypt(&ct, w1, w2, feedback).unwrap();
            assert_eq!(back, text);
        }
    }
}

#[test]
fn feedback_changes_the_cipher() {
    let text = "The white cliffs of Alghero are visible at night";
    let without = encrypt_ii(text, 4, 7).unwrap();
    let with = encrypt_iv(text, 4, 7).unwrap();
    assert_eq!(decrypt_iv(&with, 4, 7).unwrap(), text);
    assert_ne!(without, with);
    // the first symbol is shifted identically: feedback starts at zero
    assert_eq!(without.chars().next(), with.chars().next());
}

#[test]
fn invalid_symbol_aborts_encryption() {
    assert_eq!(encrypt_i("naïve", 3), Err(CipherError::InvalidSymbol));
    assert_eq!(encrypt_ii("under_score", 3, 5), Err(CipherError::InvalidSymbol));
    assert_eq!(encrypt_iv("tab\there", 3, 5), Err(CipherError::InvalidSymbol));
    assert_eq!(decrypt_iv("semi;colon", 3, 5), Err(CipherError::InvalidSymbol));
}
