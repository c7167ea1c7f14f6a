use wheel_cipher::CipherError;
use wheel_cipher::codec::WHEEL_SIZE;
use wheel_cipher::crack_iv;
use wheel_cipher::crack_iv_wheels;
use wheel_cipher::decrypt_iv;
use wheel_cipher::encrypt_iv;
use wheel_cipher::wheel_offset;

fn marker_keywords() -> Vec<String> {
    vec!["BUNKER".to_string(), "FURLIN".to_string()]
}

#[test]
fn crack_recovers_plaintext_and_class() {
    let secret = "MOVE ALL TANKS TO BUNKER 7 BEFORE DAWN";
    let ct = encrypt_iv(secret, 4, 7).unwrap();
    let (plain, wheels) = crack_iv(&ct, &marker_keywords()).unwrap();
    assert_eq!(plain, secret);

    // the equivalence class has exactly 69 members, one per wheel1 value
    assert_eq!(wheels.len(), WHEEL_SIZE as usize);
    let target = wheel_offset(4, 7, 0);
    for (i, pair) in wheels.iter().enumerate() {
        assert_eq!(pair[0], i as i32);
        assert!(0 <= pair[1] && pair[1] < 69);
        assert_eq!(wheel_offset(pair[0], pair[1], 0), target);
        // every member decodes the same first symbol as the reported text
        let candidate = decrypt_iv(&ct, pair[0], pair[1]).unwrap();
        assert_eq!(candidate.chars().next(), plain.chars().next());
    }
    // the true key is in the class it cannot be told apart from
    assert!(wheels.contains(&[4, 7]));
}

#[test]
fn crack_wheels_returns_first_matching_pair() {
    let secret = "REPORT TO FURLIN AT NOON";
    let ct = encrypt_iv(secret, 20, 11).unwrap();
    let found = crack_iv_wheels(&ct, &marker_keywords()).unwrap();
    // the found pair decodes a keyword, and no earlier pair does
    let decoded = decrypt_iv(&ct, found[0], found[1]).unwrap();
    assert!(decoded.contains("FURLIN"));
    for w1 in 0..69 {
        for w2 in 0..69 {
            if (w1, w2) == (found[0], found[1]) {
                return;
            }
            let text = decrypt_iv(&ct, w1, w2).unwrap();
            assert!(!text.contains("BUNKER") && !text.contains("FURLIN"));
        }
    }
}

#[test]
fn crack_without_any_match_fails() {
    // keywords longer than the message can never appear
    let r = crack_iv("A1", &marker_keywords());
    assert_eq!(r, Err(CipherError::NoKeywordMatch));
    let r = crack_iv_wheels("A1", &marker_keywords());
    assert_eq!(r, Err(CipherError::NoKeywordMatch));
}

#[test]
fn crack_rejects_foreign_ciphertext() {
    let r = crack_iv("no–dash", &marker_keywords());
    assert_eq!(r, Err(CipherError::InvalidSymbol));
}
