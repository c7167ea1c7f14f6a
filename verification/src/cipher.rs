//! The cipher engine: the wheel-offset function and the stateful
//! per-character encrypt/decrypt transforms, with the optional third
//! wheel fed back from the previously processed plaintext symbol.

use vstd::prelude::*;

verus! {

use crate::codec::CipherError;
use crate::codec::char_code;
use crate::codec::emod69;
use crate::codec::in_alphabet;
use crate::codec::int_to_key;
use crate::codec::key_to_int;
use crate::codec::lemma_code_to_char_inverse;
use crate::codec::lemma_char_code_inverse;
use crate::codec::lemma_symbol_for_mod;
use crate::codec::symbol_for;
use crate::text::chars_to_string;
use crate::text::str_to_chars;
use vstd::arithmetic::div_mod::lemma_mod_division_less_than_divisor;
use vstd::arithmetic::div_mod::lemma_mod_multiples_vanish;
use vstd::arithmetic::div_mod::lemma_small_mod;
use vstd::arithmetic::div_mod::lemma_sub_mod_noop;

/// Whether every character of `s` is an alphabet symbol.
pub open spec fn all_in_alphabet(s: Seq<char>) -> bool {
    forall|i: int| 0 <= i < s.len() ==> in_alphabet(#[trigger] s[i])
}

/// The net shift the three wheels produce, always in `[0, 69)`.
pub open spec fn offset_spec(w1: int, w2: int, w3: int) -> int {
    (w1 - 2 * w2 + 2 * w3) % 69
}

/// The offset is invariant under full-period turns of any single
/// wheel.
pub proof fn lemma_offset_periodic(a: int, b: int, c: int, k: int)
    ensures
        offset_spec(a + 69 * k, b, c) == offset_spec(a, b, c),
        offset_spec(a, b + 69 * k, c) == offset_spec(a, b, c),
        offset_spec(a, b, c + 69 * k) == offset_spec(a, b, c),
{
    let base = a - 2 * b + 2 * c;
    lemma_mod_multiples_vanish(k, base, 69);
    assert(a + 69 * k - 2 * b + 2 * c == 69 * k + base);
    lemma_mod_multiples_vanish(-2 * k, base, 69);
    assert(a - 2 * (b + 69 * k) + 2 * c == 69 * (-2 * k) + base);
    lemma_mod_multiples_vanish(2 * k, base, 69);
    assert(a - 2 * b + 2 * (c + 69 * k) == 69 * (2 * k) + base);
}

/// Computes the shift produced by the current wheel positions.
pub fn wheel_offset(wheel1: i32, wheel2: i32, wheel3: i32) -> (r: i32)
    ensures
        r == offset_spec(wheel1 as int, wheel2 as int, wheel3 as int),
        0 <= r < 69,
{
    let n: i64 = wheel1 as i64 - 2 * (wheel2 as i64) + 2 * (wheel3 as i64);
    emod69(n)
}

/// The third wheel's position before plaintext symbol `i` is
/// processed: zero at message start, and thereafter (when feedback is
/// enabled) the code of the previous plaintext symbol.
pub open spec fn plain_wheel3(plain: Seq<char>, i: int, feedback: bool) -> int {
    if feedback && i > 0 {
        char_code(plain[i - 1])
    } else {
        0
    }
}

/// The ciphertext symbol at position `i`: the plaintext symbol's code
/// shifted forward by the offset, on the circular alphabet dial.
pub open spec fn encrypted_char(plain: Seq<char>, i: int, w1: int, w2: int, feedback: bool) -> char {
    symbol_for(char_code(plain[i]) + offset_spec(w1, w2, plain_wheel3(plain, i, feedback)))
}

/// The whole ciphertext of a message, one symbol per plaintext symbol.
pub open spec fn encrypt_seq(plain: Seq<char>, w1: int, w2: int, feedback: bool) -> Seq<char> {
    Seq::new(plain.len(), |i: int| encrypted_char(plain, i, w1, w2, feedback))
}

/// The plaintext symbol recovered at position `i`: the ciphertext
/// symbol's code shifted backward by the offset. With feedback the
/// third wheel holds the code of the previously recovered symbol, so
/// recovery is inherently sequential.
pub open spec fn decrypted_char(ct: Seq<char>, i: int, w1: int, w2: int, feedback: bool) -> char
    decreases i,
{
    let w3 = if feedback && i > 0 {
        char_code(decrypted_char(ct, i - 1, w1, w2, feedback))
    } else {
        0
    };
    symbol_for(char_code(ct[i]) - offset_spec(w1, w2, w3))
}

/// The whole plaintext recovered from a message.
pub open spec fn decrypt_seq(ct: Seq<char>, w1: int, w2: int, feedback: bool) -> Seq<char> {
    Seq::new(ct.len(), |i: int| decrypted_char(ct, i, w1, w2, feedback))
}

/// Encrypts a vector of symbols. Fails with `InvalidSymbol` exactly
/// when some character lies outside the alphabet.
pub fn encrypt_chars(plain: &Vec<char>, wheel1: i32, wheel2: i32, feedback: bool) -> (r: Result<
    Vec<char>,
    CipherError,
>)
    ensures
        match r {
            Ok(ct) => all_in_alphabet(plain@) && ct@ == encrypt_seq(
                plain@,
                wheel1 as int,
                wheel2 as int,
                feedback,
            ),
            Err(e) => e == CipherError::InvalidSymbol && !all_in_alphabet(plain@),
        },
{
    let mut out: Vec<char> = Vec::new();
    let mut wheel3: i32 = 0;
    let mut i: usize = 0;
    while i < plain.len()
        invariant
            i <= plain@.len(),
            out@.len() == i,
            forall|k: int| 0 <= k < i ==> in_alphabet(#[trigger] plain@[k]),
            forall|k: int| 0 <= k < i ==> out@[k] == encrypted_char(plain@, k, wheel1 as int, wheel2 as int, feedback),
            wheel3 == plain_wheel3(plain@, i as int, feedback),
        decreases plain@.len() - i,
    {
        let plain_int = match key_to_int(plain[i]) {
            Ok(v) => v,
            Err(e) => {
                return Err(e);
            },
        };
        let off = wheel_offset(wheel1, wheel2, wheel3);
        let cipher_int = emod69(plain_int as i64 + off as i64);
        let cipher_char = int_to_key(cipher_int);
        proof {
            lemma_symbol_for_mod(plain_int + off);
            assert(cipher_char == encrypted_char(plain@, i as int, wheel1 as int, wheel2 as int, feedback));
        }
        out.push(cipher_char);
        if feedback {
            wheel3 = plain_int;
        }
        i = i + 1;
    }
    proof {
        assert(out@ =~= encrypt_seq(plain@, wheel1 as int, wheel2 as int, feedback));
    }
    Ok(out)
}

/// Decrypts a vector of symbols. Fails with `InvalidSymbol` exactly
/// when some character lies outside the alphabet; the recovered text
/// itself always consists of alphabet symbols.
pub fn decrypt_chars(ct: &Vec<char>, wheel1: i32, wheel2: i32, feedback: bool) -> (r: Result<
    Vec<char>,
    CipherError,
>)
    ensures
        match r {
            Ok(pt) => all_in_alphabet(ct@) && pt@ == decrypt_seq(
                ct@,
                wheel1 as int,
                wheel2 as int,
                feedback,
            ) && all_in_alphabet(pt@),
            Err(e) => e == CipherError::InvalidSymbol && !all_in_alphabet(ct@),
        },
{
    let mut out: Vec<char> = Vec::new();
    let mut wheel3: i32 = 0;
    let mut i: usize = 0;
    while i < ct.len()
        invariant
            i <= ct@.len(),
            out@.len() == i,
            forall|k: int| 0 <= k < i ==> in_alphabet(#[trigger] ct@[k]),
            forall|k: int| 0 <= k < i ==> out@[k] == decrypted_char(ct@, k, wheel1 as int, wheel2 as int, feedback),
            forall|k: int| 0 <= k < i ==> in_alphabet(#[trigger] out@[k]),
            wheel3 == if feedback && i > 0 {
                char_code(out@[i - 1])
            } else {
                0
            },
        decreases ct@.len() - i,
    {
        let cipher_int = match key_to_int(ct[i]) {
            Ok(v) => v,
            Err(e) => {
                return Err(e);
            },
        };
        let off = wheel_offset(wheel1, wheel2, wheel3);
        let plain_int = emod69(cipher_int as i64 - off as i64);
        let plain_char = int_to_key(plain_int);
        proof {
            lemma_symbol_for_mod(cipher_int - off);
            assert(plain_char == decrypted_char(ct@, i as int, wheel1 as int, wheel2 as int, feedback));
            lemma_small_mod(plain_int as nat, 69);
        }
        out.push(plain_char);
        if feedback {
            // `plain_int` is the recovered symbol's code
            wheel3 = plain_int;
        }
        i = i + 1;
    }
    proof {
        assert(out@ =~= decrypt_seq(ct@, wheel1 as int, wheel2 as int, feedback));
    }
    Ok(out)
}

/// Encrypts a message with the given wheel settings; one output
/// symbol per input symbol, `InvalidSymbol` exactly when the text
/// strays outside the alphabet.
pub fn encrypt(plain_text: &str, wheel1: i32, wheel2: i32, enable_wheel3: bool) -> (r: Result<
    String,
    CipherError,
>)
    ensures
        match r {
            Ok(ct) => all_in_alphabet(plain_text@) && ct@ == encrypt_seq(
                plain_text@,
                wheel1 as int,
                wheel2 as int,
                enable_wheel3,
            ) && ct@.len() == plain_text@.len(),
            Err(e) => e == CipherError::InvalidSymbol && !all_in_alphabet(plain_text@),
        },
{
    let chars = str_to_chars(plain_text);
    match encrypt_chars(&chars, wheel1, wheel2, enable_wheel3) {
        Ok(ct) => Ok(chars_to_string(&ct)),
        Err(e) => Err(e),
    }
}

/// Decrypts a message with the given wheel settings; `InvalidSymbol`
/// exactly when the ciphertext strays outside the alphabet.
pub fn decrypt(cipher_text: &str, wheel1: i32, wheel2: i32, enable_wheel3: bool) -> (r: Result<
    String,
    CipherError,
>)
    ensures
        match r {
            Ok(pt) => all_in_alphabet(cipher_text@) && pt@ == decrypt_seq(
                cipher_text@,
                wheel1 as int,
                wheel2 as int,
                enable_wheel3,
            ) && pt@.len() == cipher_text@.len(),
            Err(e) => e == CipherError::InvalidSymbol && !all_in_alphabet(cipher_text@),
        },
{
    let chars = str_to_chars(cipher_text);
    match decrypt_chars(&chars, wheel1, wheel2, enable_wheel3) {
        Ok(pt) => Ok(chars_to_string(&pt)),
        Err(e) => Err(e),
    }
}

/// Single-wheel configuration: a constant shift of `wheel1`.
pub fn encrypt_i(plain_text: &str, wheel1: i32) -> (r: Result<String, CipherError>)
    ensures
        match r {
            Ok(ct) => all_in_alphabet(plain_text@) && ct@ == encrypt_seq(
                plain_text@,
                wheel1 as int,
                0,
                false,
            ),
            Err(e) => e == CipherError::InvalidSymbol && !all_in_alphabet(plain_text@),
        },
{
    encrypt(plain_text, wheel1, 0, false)
}

/// Two-wheel configuration: both wheels significant, no feedback.
pub fn encrypt_ii(plain_text: &str, wheel1: i32, wheel2: i32) -> (r: Result<String, CipherError>)
    ensures
        match r {
            Ok(ct) => all_in_alphabet(plain_text@) && ct@ == encrypt_seq(
                plain_text@,
                wheel1 as int,
                wheel2 as int,
                false,
            ),
            Err(e) => e == CipherError::InvalidSymbol && !all_in_alphabet(plain_text@),
        },
{
    encrypt(plain_text, wheel1, wheel2, false)
}

/// Three-wheel configuration: feedback enabled, the full chained
/// behaviour.
pub fn encrypt_iv(plain_text: &str, wheel1: i32, wheel2: i32) -> (r: Result<String, CipherError>)
    ensures
        match r {
            Ok(ct) => all_in_alphabet(plain_text@) && ct@ == encrypt_seq(
                plain_text@,
                wheel1 as int,
                wheel2 as int,
                true,
            ),
            Err(e) => e == CipherError::InvalidSymbol && !all_in_alphabet(plain_text@),
        },
{
    encrypt(plain_text, wheel1, wheel2, true)
}

/// Decryption for the three-wheel (feedback) configuration.
pub fn decrypt_iv(cipher_text: &str, wheel1: i32, wheel2: i32) -> (r: Result<String, CipherError>)
    ensures
        match r {
            Ok(pt) => all_in_alphabet(cipher_text@) && pt@ == decrypt_seq(
                cipher_text@,
                wheel1 as int,
                wheel2 as int,
                true,
            ),
            Err(e) => e == CipherError::InvalidSymbol && !all_in_alphabet(cipher_text@),
        },
{
    decrypt(cipher_text, wheel1, wheel2, true)
}

proof fn lemma_round_trip_char(plain: Seq<char>, w1: int, w2: int, feedback: bool, i: int)
    requires
        all_in_alphabet(plain),
        0 <= i < plain.len(),
    ensures
        decrypted_char(encrypt_seq(plain, w1, w2, feedback), i, w1, w2, feedback) == plain[i],
    decreases i,
{
    let enc = encrypt_seq(plain, w1, w2, feedback);
    let p = char_code(plain[i]);
    let w3 = plain_wheel3(plain, i, feedback);
    let off = offset_spec(w1, w2, w3);
    lemma_mod_division_less_than_divisor(w1 - 2 * w2 + 2 * w3, 69);
    lemma_mod_division_less_than_divisor(p + off, 69);
    lemma_code_to_char_inverse((p + off) % 69);
    assert(char_code(enc[i]) == (p + off) % 69);
    if feedback && i > 0 {
        lemma_round_trip_char(plain, w1, w2, feedback, i - 1);
    }
    // the decryption offset equals the encryption offset, since the
    // third wheel holds the same plaintext code on both sides
    assert(decrypted_char(enc, i, w1, w2, feedback) == symbol_for((p + off) % 69 - off));
    lemma_small_mod(off as nat, 69);
    lemma_sub_mod_noop(p + off, off, 69);
    assert(((p + off) % 69 - off % 69) % 69 == p % 69);
    lemma_symbol_for_mod((p + off) % 69 - off);
    lemma_small_mod(p as nat, 69);
    lemma_char_code_inverse(plain[i]);
}

/// Round trip: decrypting an encryption with the same wheel settings
/// and feedback flag recovers the plaintext exactly.
pub proof fn lemma_round_trip(plain: Seq<char>, w1: int, w2: int, feedback: bool)
    requires
        0 <= w1 < 69,
        0 <= w2 < 69,
        all_in_alphabet(plain),
    ensures
        decrypt_seq(encrypt_seq(plain, w1, w2, feedback), w1, w2, feedback) == plain,
{
    let enc = encrypt_seq(plain, w1, w2, feedback);
    assert forall|i: int| 0 <= i < plain.len() implies decrypted_char(enc, i, w1, w2, feedback)
        == plain[i] by {
        lemma_round_trip_char(plain, w1, w2, feedback, i);
    }
    assert(decrypt_seq(enc, w1, w2, feedback) =~= plain);
}

} // verus!
