//! A rotor-wheel substitution cipher over a fixed 69-symbol alphabet
//! (digits, letters, and a few punctuation marks), together with a
//! known-plaintext brute-force cracker that recovers wheel settings.

pub mod cipher;
pub mod codec;
pub mod crack;
pub mod text;

pub use cipher::decrypt;
pub use cipher::decrypt_iv;
pub use cipher::encrypt;
pub use cipher::encrypt_i;
pub use cipher::encrypt_ii;
pub use cipher::encrypt_iv;
pub use cipher::wheel_offset;
pub use codec::CipherError;
pub use codec::int_to_key;
pub use codec::key_to_int;
pub use crack::crack_iv;
pub use crack::crack_iv_wheels;
