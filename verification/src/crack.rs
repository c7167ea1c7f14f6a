//! The cracker: a brute-force search over the two free wheel
//! settings, validated by known-plaintext keywords, together with the
//! full equivalence class of wheel pairs that decode identically.

use vstd::prelude::*;

verus! {

use crate::codec::CipherError;
use crate::cipher::all_in_alphabet;
use crate::cipher::decrypt_seq;
use crate::cipher::offset_spec;
use crate::cipher::decrypt_chars;
use crate::cipher::wheel_offset;
use crate::text::chars_to_string;
use crate::text::has_substr;
use crate::text::contains_substring;
use crate::text::str_to_chars;
use vstd::arithmetic::div_mod::lemma_fundamental_div_mod;
use vstd::arithmetic::div_mod::lemma_mod_division_less_than_divisor;
use vstd::arithmetic::div_mod::lemma_mod_multiples_vanish;
use vstd::arithmetic::div_mod::lemma_small_mod;

/// The character sequences of a list of keyword strings.
pub open spec fn keyword_views(kws: Seq<String>) -> Seq<Seq<char>> {
    kws.map_values(|s: String| s@)
}

/// Whether decoding `ct` with the pair `(w1, w2)` in the feedback
/// configuration reveals one of the keywords as a substring.
pub open spec fn pair_matches(ct: Seq<char>, kws: Seq<Seq<char>>, w1: int, w2: int) -> bool {
    exists|j: int| 0 <= j < kws.len() && has_substr(decrypt_seq(ct, w1, w2, true), #[trigger] kws[j])
}

/// Lexicographic order on wheel pairs: the search's enumeration order
/// (first wheel outer, second wheel inner, both ascending).
pub open spec fn pair_before(a1: int, a2: int, b1: int, b2: int) -> bool {
    a1 < b1 || (a1 == b1 && a2 < b2)
}

/// `(w1, w2)` is the first pair, in enumeration order, whose decoding
/// reveals a keyword.
pub open spec fn first_match(ct: Seq<char>, kws: Seq<Seq<char>>, w1: int, w2: int) -> bool {
    &&& 0 <= w1 < 69
    &&& 0 <= w2 < 69
    &&& pair_matches(ct, kws, w1, w2)
    &&& forall|a: int, b: int|
        0 <= a < 69 && 0 <= b < 69 && pair_before(a, b, w1, w2) ==> !(#[trigger] pair_matches(
            ct,
            kws,
            a,
            b,
        ))
}

/// Both wheels of the pair lie in `[0, 69)`.
pub open spec fn pair_in_range(w: [i32; 2]) -> bool {
    0 <= w[0] < 69 && 0 <= w[1] < 69
}

/// The pair `(a, b)` occurs in the list `ws`.
pub open spec fn pair_listed(ws: Seq<[i32; 2]>, a: int, b: int) -> bool {
    exists|k: int| 0 <= k < ws.len() && (#[trigger] ws[k])[0] == a && ws[k][1] == b
}

/// The reported equivalence class for a baseline offset `target`:
/// exactly the 69 wheel pairs whose baseline offset equals `target`,
/// listed in enumeration order.
pub open spec fn wheel_class_ok(ws: Seq<[i32; 2]>, target: int) -> bool {
    &&& ws.len() == 69
    &&& forall|k: int|
        0 <= k < ws.len() ==> pair_in_range(#[trigger] ws[k]) && offset_spec(
            ws[k][0] as int,
            ws[k][1] as int,
            0,
        ) == target
    &&& forall|a: int, b: int|
        0 <= a < 69 && 0 <= b < 69 && #[trigger] offset_spec(a, b, 0) == target ==> pair_listed(
            ws,
            a,
            b,
        )
    &&& forall|k: int, l: int|
        0 <= k < l < ws.len() ==> pair_before(
            (#[trigger] ws[k])[0] as int,
            ws[k][1] as int,
            (#[trigger] ws[l])[0] as int,
            ws[l][1] as int,
        )
}

/// For a fixed first wheel, distinct second-wheel settings in range
/// give distinct baseline offsets: the class holds one pair per row.
pub proof fn lemma_w2_unique(w1: int, x: int, y: int)
    requires
        0 <= x < 69,
        0 <= y < 69,
        offset_spec(w1, x, 0) == offset_spec(w1, y, 0),
    ensures
        x == y,
{
    let ax = w1 - 2 * x + 2 * 0;
    let ay = w1 - 2 * y + 2 * 0;
    lemma_fundamental_div_mod(ax, 69);
    lemma_fundamental_div_mod(ay, 69);
    let q = ax / 69 - ay / 69;
    assert(2 * y - 2 * x == 69 * q);
    // a multiple of 69 in (-138, 138) is -69, 0 or 69; only 0 is even
    assert(-138 < 69 * q < 138);
    assert(q == 2 * ((y - x) - 34 * q));
    assert(q == 0);
}

/// Every first-wheel value has exactly one second-wheel setting in
/// range realising a given baseline offset; this is its existence.
pub proof fn lemma_w2_exists(w1: int, t: int)
    requires
        0 <= t < 69,
    ensures
        exists|b: int| 0 <= b < 69 && offset_spec(w1, b, 0) == t,
{
    let z = 35 * (w1 - t);
    let b = z % 69;
    lemma_mod_division_less_than_divisor(z, 69);
    lemma_fundamental_div_mod(z, 69);
    let q = z / 69;
    assert(w1 - 2 * b + 2 * 0 == t + 69 * (t - w1 + 2 * q));
    lemma_mod_multiples_vanish(t - w1 + 2 * q, t, 69);
    lemma_small_mod(t as nat, 69);
    assert(offset_spec(w1, b, 0) == t);
}

/// Wheel pairs with equal baseline offset recover the same first
/// plaintext symbol from any nonempty ciphertext: by the first
/// symbol, members of one equivalence class cannot be told apart.
pub proof fn lemma_class_first_symbol(ct: Seq<char>, a1: int, a2: int, b1: int, b2: int)
    requires
        ct.len() > 0,
        offset_spec(a1, a2, 0) == offset_spec(b1, b2, 0),
    ensures
        decrypt_seq(ct, a1, a2, true)[0] == decrypt_seq(ct, b1, b2, true)[0],
{
}

/// Converts each keyword to its character vector.
fn keywords_to_chars(keywords: &Vec<String>) -> (kws: Vec<Vec<char>>)
    ensures
        kws@.len() == keywords@.len(),
        forall|j: int| 0 <= j < kws@.len() ==> (#[trigger] kws@[j])@ == keywords@[j]@,
{
    let mut kws: Vec<Vec<char>> = Vec::new();
    let mut j: usize = 0;
    while j < keywords.len()
        invariant
            j <= keywords@.len(),
            kws@.len() == j,
            forall|l: int| 0 <= l < j ==> (#[trigger] kws@[l])@ == keywords@[l]@,
        decreases keywords@.len() - j,
    {
        kws.push(str_to_chars(keywords[j].as_str()));
        j = j + 1;
    }
    kws
}

/// Whether any of the keywords occurs in `text`.
fn any_keyword_in(text: &Vec<char>, kws: &Vec<Vec<char>>) -> (b: bool)
    ensures
        b == exists|j: int| 0 <= j < kws@.len() && has_substr(text@, (#[trigger] kws@[j])@),
{
    let mut j: usize = 0;
    while j < kws.len()
        invariant
            j <= kws@.len(),
            forall|l: int| 0 <= l < j ==> !has_substr(text@, (#[trigger] kws@[l])@),
        decreases kws@.len() - j,
    {
        if contains_substring(text, &kws[j]) {
            return true;
        }
        j = j + 1;
    }
    false
}

/// Searches the whole `69 x 69` wheel-pair space, in enumeration
/// order, for the first pair whose feedback-configuration decoding of
/// `cipher_text` contains one of the `keywords`. `InvalidSymbol` if
/// the ciphertext strays outside the alphabet; `NoKeywordMatch` if
/// the whole space is exhausted without a keyword appearing.
pub fn crack_iv_wheels(cipher_text: &str, keywords: &Vec<String>) -> (r: Result<
    [i32; 2],
    CipherError,
>)
    ensures
        match r {
            Ok(w) => all_in_alphabet(cipher_text@) && first_match(
                cipher_text@,
                keyword_views(keywords@),
                w[0] as int,
                w[1] as int,
            ),
            Err(e) => if all_in_alphabet(cipher_text@) {
                e == CipherError::NoKeywordMatch && forall|a: int, b: int|
                    0 <= a < 69 && 0 <= b < 69 ==> !(#[trigger] pair_matches(
                        cipher_text@,
                        keyword_views(keywords@),
                        a,
                        b,
                    ))
            } else {
                e == CipherError::InvalidSymbol
            },
        },
{
    let ct = str_to_chars(cipher_text);
    let kws = keywords_to_chars(keywords);
    let ghost kv = keyword_views(keywords@);
    let mut w1: i32 = 0;
    while w1 < 69
        invariant
            0 <= w1 <= 69,
            ct@ == cipher_text@,
            kws@.len() == kv.len(),
            forall|j: int| 0 <= j < kws@.len() ==> (#[trigger] kws@[j])@ == kv[j],
            kv == keyword_views(keywords@),
            w1 > 0 ==> all_in_alphabet(cipher_text@),
            forall|a: int, b: int|
                0 <= a < w1 && 0 <= b < 69 ==> !(#[trigger] pair_matches(cipher_text@, kv, a, b)),
        decreases 69 - w1,
    {
        let mut w2: i32 = 0;
        while w2 < 69
            invariant
                0 <= w1 < 69,
                0 <= w2 <= 69,
                ct@ == cipher_text@,
                kws@.len() == kv.len(),
                forall|j: int| 0 <= j < kws@.len() ==> (#[trigger] kws@[j])@ == kv[j],
                kv == keyword_views(keywords@),
                w1 > 0 || w2 > 0 ==> all_in_alphabet(cipher_text@),
                forall|a: int, b: int|
                    0 <= a < w1 && 0 <= b < 69 ==> !(#[trigger] pair_matches(
                        cipher_text@,
                        kv,
                        a,
                        b,
                    )),
                forall|b: int|
                    0 <= b < w2 ==> !(#[trigger] pair_matches(cipher_text@, kv, w1 as int, b)),
            decreases 69 - w2,
        {
            let pt = match decrypt_chars(&ct, w1, w2, true) {
                Ok(pt) => pt,
                Err(e) => {
                    return Err(e);
                },
            };
            if any_keyword_in(&pt, &kws) {
                proof {
                    let j = choose|j: int|
                        0 <= j < kws@.len() && has_substr(pt@, (#[trigger] kws@[j])@);
                    assert(has_substr(decrypt_seq(cipher_text@, w1 as int, w2 as int, true), kv[j]));
                    assert(pair_matches(cipher_text@, kv, w1 as int, w2 as int));
                }
                return Ok([w1, w2]);
            }
            proof {
                if pair_matches(cipher_text@, kv, w1 as int, w2 as int) {
                    let j = choose|j: int|
                        0 <= j < kv.len() && has_substr(
                            decrypt_seq(cipher_text@, w1 as int, w2 as int, true),
                            #[trigger] kv[j],
                        );
                    assert(has_substr(pt@, kws@[j]@));
                    assert(false);
                }
            }
            w2 = w2 + 1;
        }
        w1 = w1 + 1;
    }
    Err(CipherError::NoKeywordMatch)
}

/// Cracks a feedback-configuration ciphertext: finds the first
/// keyword-revealing wheel pair, decodes the message with it, and
/// reports the full equivalence class of wheel pairs sharing its
/// baseline offset (always exactly 69 pairs).
pub fn crack_iv(cipher_text: &str, keywords: &Vec<String>) -> (r: Result<
    (String, Vec<[i32; 2]>),
    CipherError,
>)
    ensures
        match r {
            Ok(res) => {
                &&& all_in_alphabet(cipher_text@)
                &&& exists|w1: int, w2: int|
                    {
                        &&& #[trigger] first_match(cipher_text@, keyword_views(keywords@), w1, w2)
                        &&& res.0@ == decrypt_seq(cipher_text@, w1, w2, true)
                        &&& wheel_class_ok(res.1@, offset_spec(w1, w2, 0))
                    }
            },
            Err(e) => if all_in_alphabet(cipher_text@) {
                e == CipherError::NoKeywordMatch && forall|a: int, b: int|
                    0 <= a < 69 && 0 <= b < 69 ==> !(#[trigger] pair_matches(
                        cipher_text@,
                        keyword_views(keywords@),
                        a,
                        b,
                    ))
            } else {
                e == CipherError::InvalidSymbol
            },
        },
{
    let first = match crack_iv_wheels(cipher_text, keywords) {
        Ok(w) => w,
        Err(e) => {
            return Err(e);
        },
    };
    let fw1 = first[0];
    let fw2 = first[1];
    let target = wheel_offset(fw1, fw2, 0);
    let mut all: Vec<[i32; 2]> = Vec::new();
    let mut w1: i32 = 0;
    while w1 < 69
        invariant
            0 <= w1 <= 69,
            target == offset_spec(fw1 as int, fw2 as int, 0),
            0 <= target < 69,
            all@.len() == w1,
            forall|k: int|
                0 <= k < all@.len() ==> pair_in_range(#[trigger] all@[k]) && offset_spec(
                    all@[k][0] as int,
                    all@[k][1] as int,
                    0,
                ) == target,
            forall|a: int, b: int|
                0 <= a < w1 && 0 <= b < 69 && #[trigger] offset_spec(a, b, 0) == target
                    ==> pair_listed(all@, a, b),
            forall|k: int| 0 <= k < all@.len() ==> (#[trigger] all@[k])[0] < w1,
            forall|k: int, l: int|
                0 <= k < l < all@.len() ==> pair_before(
                    (#[trigger] all@[k])[0] as int,
                    all@[k][1] as int,
                    (#[trigger] all@[l])[0] as int,
                    all@[l][1] as int,
                ),
        decreases 69 - w1,
    {
        let mut w2: i32 = 0;
        let mut found: bool = false;
        while w2 < 69
            invariant
                0 <= w1 < 69,
                0 <= w2 <= 69,
                target == offset_spec(fw1 as int, fw2 as int, 0),
                0 <= target < 69,
                all@.len() == w1 + (if found {
                    1int
                } else {
                    0int
                }),
                found == exists|b: int|
                    0 <= b < w2 && #[trigger] offset_spec(w1 as int, b, 0) == target,
                forall|k: int|
                    0 <= k < all@.len() ==> pair_in_range(#[trigger] all@[k]) && offset_spec(
                        all@[k][0] as int,
                        all@[k][1] as int,
                        0,
                    ) == target,
                forall|a: int, b: int|
                    0 <= a < w1 && 0 <= b < 69 && #[trigger] offset_spec(a, b, 0) == target
                        ==> pair_listed(all@, a, b),
                forall|b: int|
                    0 <= b < w2 && #[trigger] offset_spec(w1 as int, b, 0) == target
                        ==> pair_listed(all@, w1 as int, b),
                forall|k: int|
                    0 <= k < all@.len() ==> (#[trigger] all@[k])[0] < w1 || (all@[k][0] == w1
                        && all@[k][1] < w2),
                forall|k: int, l: int|
                    0 <= k < l < all@.len() ==> pair_before(
                        (#[trigger] all@[k])[0] as int,
                        all@[k][1] as int,
                        (#[trigger] all@[l])[0] as int,
                        all@[l][1] as int,
                    ),
            decreases 69 - w2,
        {
            if wheel_offset(w1, w2, 0) == target {
                proof {
                    if found {
                        let b = choose|b: int|
                            0 <= b < w2 && #[trigger] offset_spec(w1 as int, b, 0) == target;
                        lemma_w2_unique(w1 as int, b, w2 as int);
                        assert(false);
                    }
                }
                let ghost prev = all@;
                let pair = [w1, w2];
                all.push(pair);
                proof {
                    assert(all@[prev.len() as int] == pair);
                    assert forall|a: int, b: int| pair_listed(prev, a, b) implies pair_listed(
                        all@,
                        a,
                        b,
                    ) by {
                        let k = choose|k: int|
                            0 <= k < prev.len() && (#[trigger] prev[k])[0] == a && prev[k][1] == b;
                        assert(all@[k] == prev[k]);
                    }
                    assert(pair_listed(all@, w1 as int, w2 as int));
                }
                found = true;
            }
            w2 = w2 + 1;
        }
        proof {
            lemma_w2_exists(w1 as int, target as int);
        }
        w1 = w1 + 1;
    }
    let ct = str_to_chars(cipher_text);
    let plain = match decrypt_chars(&ct, fw1, fw2, true) {
        Ok(pt) => pt,
        Err(e) => {
            proof {
                // unreachable: the search already decoded this ciphertext
                assert(false);
            }
            return Err(e);
        },
    };
    let plain_text = chars_to_string(&plain);
    proof {
        assert(first_match(cipher_text@, keyword_views(keywords@), fw1 as int, fw2 as int));
        assert(wheel_class_ok(all@, offset_spec(fw1 as int, fw2 as int, 0)));
    }
    Ok((plain_text, all))
}

} // verus!
