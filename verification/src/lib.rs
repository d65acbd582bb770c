//! A password-hashing library around the Argon2 key-derivation primitive.
//!
//! A [`PasswordHasher`] is bound to one [`Algorithm`] and one
//! [`ParameterSet`]; it produces self-describing encoded hash strings in
//! the standard Argon2 text form, verifies candidate passwords against
//! stored strings, and reports when a stored string was produced under a
//! policy other than its own. The text codec is verified lossless in both
//! directions; the memory-hard derivation itself is consumed as a black
//! box.

mod b64;
mod codec;
mod digits;
mod hasher;
mod params;

pub use b64::{b64_decode, b64_encode, is_b64_byte, spec_b64_decode, spec_b64_encode};
pub use codec::{parse_encoded_hash, spec_encode, spec_parse, EncodedHash, SpecEncodedHash};
pub use digits::{canonical_digits, dec_val, spec_dec};
pub use hasher::{
    alg_code, digest_of, lemma_changed_memory_cost_is_stale, lemma_distinct_salts_distinct_hashes,
    lemma_fresh_hash_not_stale, lemma_verify_of_encoding, PasswordHasher, KDF_VERSION, SALT_LEN,
};
pub use params::{
    valid_costs, Algorithm, Error, ParameterSet, DEFAULT_M_COST, DEFAULT_OUTPUT_LEN,
    DEFAULT_P_COST, DEFAULT_T_COST, MAX_P_COST, MIN_OUTPUT_LEN, MIN_SALT_LEN,
};
