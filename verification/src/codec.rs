//! The alphabet codec: a bijection between the fixed, ordered 69-symbol
//! alphabet (`0`-`9`, `A`-`Z`, `a`-`z`, `.`, `,`, `?`, `!`, `'`, `"`, space)
//! and the integer codes `0..69`.

use vstd::prelude::*;

verus! {

/// The number of symbols in the alphabet, and hence the number of
/// positions on a cipher wheel.
pub const WHEEL_SIZE: i32 = 69;

/// The failure kinds of this library.
#[derive(Clone, Copy, Debug, PartialEq, Eq, Structural)]
pub enum CipherError {
    /// A character outside the 69-symbol alphabet was given to a
    /// cipher operation.
    InvalidSymbol,
    /// The cracker exhausted the whole wheel-setting space without
    /// any keyword appearing in a decoded text.
    NoKeywordMatch,
}

/// The integer code of symbol `c`: its position in the alphabet.
/// Characters outside the alphabet are mapped to 69, one past the
/// largest valid code.
pub open spec fn char_code(c: char) -> int {
    let u = c as u32;
    if '0' as u32 <= u && u <= '9' as u32 {
        u - ('0' as u32)
    } else if 'A' as u32 <= u && u <= 'Z' as u32 {
        u - ('A' as u32) + 10
    } else if 'a' as u32 <= u && u <= 'z' as u32 {
        u - ('a' as u32) + 36
    } else if u == '.' as u32 {
        62
    } else if u == ',' as u32 {
        63
    } else if u == '?' as u32 {
        64
    } else if u == '!' as u32 {
        65
    } else if u == '\'' as u32 {
        66
    } else if u == '"' as u32 {
        67
    } else if u == ' ' as u32 {
        68
    } else {
        69
    }
}

/// Whether `c` is one of the 69 alphabet symbols.
pub open spec fn in_alphabet(c: char) -> bool {
    char_code(c) < 69
}

/// The alphabet symbol at position `i`, for `0 <= i < 69`.
pub open spec fn code_to_char(i: int) -> char
    recommends
        0 <= i < 69,
{
    if 0 <= i < 10 {
        ((i + ('0' as u32)) as u8) as char
    } else if 10 <= i < 36 {
        ((i - 10 + ('A' as u32)) as u8) as char
    } else if 36 <= i < 62 {
        ((i - 36 + ('a' as u32)) as u8) as char
    } else if i == 62 {
        '.'
    } else if i == 63 {
        ','
    } else if i == 64 {
        '?'
    } else if i == 65 {
        '!'
    } else if i == 66 {
        '\''
    } else if i == 67 {
        '"'
    } else {
        ' '
    }
}

/// The symbol the circular alphabet dial shows for an arbitrary
/// integer `n`: the alphabet is walked modulo its size.
pub open spec fn symbol_for(n: int) -> char {
    code_to_char(n % 69)
}

/// The codec is a bijection, one direction: encoding the symbol of a
/// valid code gives that code back.
pub proof fn lemma_code_to_char_inverse(i: int)
    requires
        0 <= i < 69,
    ensures
        in_alphabet(code_to_char(i)),
        char_code(code_to_char(i)) == i,
{
}

/// The codec is a bijection, the other direction: the symbol of an
/// alphabet character's code is that character again.
pub proof fn lemma_char_code_inverse(c: char)
    requires
        in_alphabet(c),
    ensures
        0 <= char_code(c) < 69,
        code_to_char(char_code(c)) == c,
{
}

/// Decodes a symbol to its integer code, `InvalidSymbol` for a
/// character outside the alphabet.
pub fn key_to_int(ch: char) -> (r: Result<i32, CipherError>)
    ensures
        r == if in_alphabet(ch) {
            Ok::<i32, CipherError>(char_code(ch) as i32)
        } else {
            Err::<i32, CipherError>(CipherError::InvalidSymbol)
        },
{
    let u = ch as u32;
    if '0' as u32 <= u && u <= '9' as u32 {
        Ok((u - '0' as u32) as i32)
    } else if 'A' as u32 <= u && u <= 'Z' as u32 {
        Ok((u - 'A' as u32 + 10) as i32)
    } else if 'a' as u32 <= u && u <= 'z' as u32 {
        Ok((u - 'a' as u32 + 36) as i32)
    } else if u == '.' as u32 {
        Ok(62)
    } else if u == ',' as u32 {
        Ok(63)
    } else if u == '?' as u32 {
        Ok(64)
    } else if u == '!' as u32 {
        Ok(65)
    } else if u == '\'' as u32 {
        Ok(66)
    } else if u == '"' as u32 {
        Ok(67)
    } else if u == ' ' as u32 {
        Ok(68)
    } else {
        Err(CipherError::InvalidSymbol)
    }
}

/// Euclidean remainder of `n` modulo the wheel size, always in `[0, 69)`.
pub(crate) fn emod69(n: i64) -> (r: i32)
    ensures
        r == (n as int) % 69,
        0 <= r < 69,
{
    proof {
        vstd::arithmetic::div_mod::lemma_mod_division_less_than_divisor(n as int, 69);
    }
    let m = n.checked_rem_euclid(69);
    match m {
        Some(v) => v as i32,
        None => 0,
    }
}

/// Encodes an integer to a symbol, treating the alphabet as a
/// circular dial: the integer is first reduced modulo 69 (Euclidean,
/// so the result is in range even for negative inputs). Total: never
/// fails, for any `i32`.
pub fn int_to_key(n: i32) -> (c: char)
    ensures
        c == symbol_for(n as int),
        in_alphabet(c),
        char_code(c) == (n as int) % 69,
{
    let m = emod69(n as i64);
    proof {
        lemma_code_to_char_inverse((n as int) % 69);
    }
    let b = m as u8;
    if b < 10 {
        (b + '0' as u8) as char
    } else if b < 36 {
        (b - 10 + 'A' as u8) as char
    } else if b < 62 {
        (b - 36 + 'a' as u8) as char
    } else if b == 62 {
        '.'
    } else if b == 63 {
        ','
    } else if b == 64 {
        '?'
    } else if b == 65 {
        '!'
    } else if b == 66 {
        '\''
    } else if b == 67 {
        '"'
    } else {
        ' '
    }
}

/// `symbol_for` only sees the residue of its argument: reducing first
/// changes nothing, so every integer denotes the same symbol as its
/// remainder in `[0, 69)`.
pub proof fn lemma_symbol_for_mod(n: int)
    ensures
        symbol_for(n % 69) == symbol_for(n),
        0 <= n % 69 < 69,
{
    vstd::arithmetic::div_mod::lemma_mod_division_less_than_divisor(n, 69);
    vstd::arithmetic::div_mod::lemma_mod_twice(n, 69);
}

} // verus!
