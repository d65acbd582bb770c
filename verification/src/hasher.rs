use crate::codec::{
    lemma_encode_injective, lemma_parse_of_encode, parse_encoded_hash, spec_encode, spec_parse,
    EncodedHash, SpecEncodedHash,
};
use crate::params::{
    valid_costs, Algorithm, Error, ParameterSet, MIN_OUTPUT_LEN, MIN_SALT_LEN,
};
use rand_core::{OsRng, RngCore};
use vstd::prelude::*;
use vstd::slice::slice_to_vec;
use vstd::utf8::encode_utf8;

verus! {

/// Salt length in bytes of freshly produced hashes.
pub const SALT_LEN: usize = 16;

/// The version of the key-derivation primitive fresh hashes are made with.
pub const KDF_VERSION: u32 = 19;

/// Numeric identity of each variant, used only to state what the
/// key-derivation call returns.
pub open spec fn alg_code(a: Algorithm) -> u8 {
    match a {
        Algorithm::Argon2id => 0,
        Algorithm::Argon2d => 1,
        Algorithm::Argon2i => 2,
    }
}

/// The digest the Argon2 primitive derives from a variant, version, the
/// three cost knobs, an output length, a password and a salt. Stating the
/// memory-hard computation itself is not this library's business; what
/// matters is that it is a function of these arguments alone.
pub uninterp spec fn digest_of(
    alg: u8,
    version: u32,
    m: u32,
    t: u32,
    p: u32,
    out_len: u32,
    password: Seq<u8>,
    salt: Seq<u8>,
) -> Seq<u8>;

/// Relies on argon2::Argon2::hash_password_into, with argon2::Params::new
/// and argon2::Version::try_from: the requires below lie inside the ranges
/// all three accept, the call fills exactly `out_len` bytes, and the digest
/// depends on nothing but the arguments. The call may still decline (for
/// one, its working memory is allocated fallibly); every failure is
/// reported, never a made-up digest.
#[verifier::external_body]
fn argon2_digest(
    alg: Algorithm,
    version: u32,
    m: u32,
    t: u32,
    p: u32,
    out_len: u32,
    password: &[u8],
    salt: &[u8],
) -> (r: Result<Vec<u8>, Error>)
    requires
        version == 16 || version == 19,
        valid_costs(m, t, p),
        MIN_SALT_LEN <= salt@.len() <= u32::MAX,
        MIN_OUTPUT_LEN <= out_len,
        password@.len() <= u32::MAX,
    ensures
        match r {
            Ok(d) => d@.len() == out_len && d@ == digest_of(
                alg_code(alg),
                version,
                m,
                t,
                p,
                out_len,
                password@,
                salt@,
            ),
            Err(e) => e == Error::HashingFailure,
        },
{
    let a = match alg {
        Algorithm::Argon2id => argon2::Algorithm::Argon2id,
        Algorithm::Argon2d => argon2::Algorithm::Argon2d,
        Algorithm::Argon2i => argon2::Algorithm::Argon2i,
    };
    let v = match argon2::Version::try_from(version) { Ok(v) => v, Err(_) => return Err(Error::HashingFailure) };
    let params = match argon2::Params::new(m, t, p, Some(out_len as usize)) { Ok(p) => p, Err(_) => return Err(Error::HashingFailure) };
    let mut out = vec![0u8; out_len as usize];
    match argon2::Argon2::new(a, v, params).hash_password_into(password, salt, &mut out) {
        Ok(()) => Ok(out),
        Err(_) => Err(Error::HashingFailure),
    }
}

/// Relies on rand_core::OsRng::try_fill_bytes: the operating system's
/// secure random source fills the buffer or reports failure. Nothing is
/// assumed about the bytes themselves beyond their number.
#[verifier::external_body]
fn random_salt_bytes() -> (r: Result<Vec<u8>, Error>)
    ensures
        match r {
            Ok(s) => s@.len() == SALT_LEN,
            Err(e) => e == Error::HashingFailure,
        },
{
    let mut buf = vec![0u8; SALT_LEN];
    match OsRng.try_fill_bytes(&mut buf) {
        Ok(()) => Ok(buf),
        Err(_) => Err(Error::HashingFailure),
    }
}

/// A configured password hasher: one variant and one parameter set, fixed
/// at construction, immutable and stateless afterwards.
pub struct PasswordHasher {
    algorithm: Algorithm,
    params: ParameterSet,
}

impl PasswordHasher {
    /// A hasher only ever holds a parameter set the primitive accepts.
    #[verifier::type_invariant]
    pub closed spec fn wf(self) -> bool {
        self.params.valid()
    }

    /// The variant this hasher is bound to.
    pub closed spec fn spec_algorithm(self) -> Algorithm {
        self.algorithm
    }

    /// The parameter set this hasher is bound to.
    pub closed spec fn spec_params(self) -> ParameterSet {
        self.params
    }

    pub fn algorithm(&self) -> (r: Algorithm)
        ensures
            r == self.spec_algorithm(),
    {
        self.algorithm
    }

    pub fn params(&self) -> (r: ParameterSet)
        ensures
            r == self.spec_params(),
            r.valid(),
    {
        proof {
            use_type_invariant(self);
        }
        self.params
    }

    /// Build a hasher from caller overrides merged with the library
    /// defaults; out-of-range values fail construction.
    pub fn new(
        time_cost: Option<u32>,
        memory_cost: Option<u32>,
        parallelism: Option<u32>,
        output_length: Option<u32>,
        algorithm: Option<Algorithm>,
    ) -> (r: Result<PasswordHasher, Error>)
        ensures
            ({
                let merged = ParameterSet {
                    time_cost: time_cost.unwrap_or(crate::params::DEFAULT_T_COST),
                    memory_cost: memory_cost.unwrap_or(crate::params::DEFAULT_M_COST),
                    parallelism: parallelism.unwrap_or(crate::params::DEFAULT_P_COST),
                    output_length,
                };
                let alg = algorithm.unwrap_or(Algorithm::Argon2id);
                if merged.valid() {
                    r matches Ok(h) && h.spec_params() == merged && h.spec_algorithm() == alg
                        && h.wf()
                } else {
                    r == Err::<PasswordHasher, Error>(Error::InvalidParameters)
                }
            }),
    {
        let params = match ParameterSet::new(time_cost, memory_cost, parallelism, output_length) {
            Ok(p) => p,
            Err(e) => {
                return Err(e);
            },
        };
        let algorithm = match algorithm {
            Some(a) => a,
            None => Algorithm::default(),
        };
        Ok(PasswordHasher { algorithm, params })
    }

    /// The fields a fresh hash of `password` with `salt` encodes under this
    /// configuration.
    pub open spec fn fresh_fields(self, pwd_bytes: Seq<u8>, salt: Seq<u8>) -> SpecEncodedHash {
        SpecEncodedHash {
            algorithm: self.spec_algorithm(),
            version: KDF_VERSION,
            memory_cost: self.spec_params().memory_cost,
            time_cost: self.spec_params().time_cost,
            parallelism: self.spec_params().parallelism,
            salt: salt,
            digest: digest_of(
                alg_code(self.spec_algorithm()),
                KDF_VERSION,
                self.spec_params().memory_cost,
                self.spec_params().time_cost,
                self.spec_params().parallelism,
                self.spec_params().spec_effective_output_len(),
                pwd_bytes,
                salt,
            ),
        }
    }

    /// Does the digest a stored hash carries equal what its own parameters
    /// and salt derive from the candidate password?
    pub open spec fn spec_digest_matches(f: SpecEncodedHash, pwd_bytes: Seq<u8>) -> bool {
        f.digest == digest_of(
            alg_code(f.algorithm),
            f.version,
            f.memory_cost,
            f.time_cost,
            f.parallelism,
            f.digest.len() as u32,
            pwd_bytes,
            f.salt,
        )
    }

    /// What verification of a stored text against a candidate password
    /// answers: nothing on malformed text, else whether the digests match.
    pub open spec fn spec_verify(s: Seq<u8>, pwd_bytes: Seq<u8>) -> Option<bool> {
        match spec_parse(s) {
            Some(f) => Some(Self::spec_digest_matches(f, pwd_bytes)),
            None => None,
        }
    }

    /// Is a stored hash stale for this configuration: another variant,
    /// another cost knob, or another digest length?
    pub open spec fn spec_stale(self, f: SpecEncodedHash) -> bool {
        !(f.algorithm == self.spec_algorithm() && f.memory_cost == self.spec_params().memory_cost
            && f.time_cost == self.spec_params().time_cost && f.parallelism
            == self.spec_params().parallelism && f.digest.len()
            == self.spec_params().spec_effective_output_len())
    }

    /// What the rehash check answers on a stored text.
    pub open spec fn spec_needs_rehash(self, s: Seq<u8>) -> Option<bool> {
        match spec_parse(s) {
            Some(f) => Some(self.spec_stale(f)),
            None => None,
        }
    }

    /// Hash `password` with the given salt. Deterministic: the text is the
    /// canonical encoding of exactly the fields `fresh_fields` names.
    pub fn hash_with_salt(&self, password: &str, salt: &[u8]) -> (r: Result<String, Error>)
        requires
            MIN_SALT_LEN <= salt@.len() <= u32::MAX,
        ensures
            match r {
                Ok(text) => ({
                    let f = self.fresh_fields(encode_utf8(password@), salt@);
                    &&& f.valid()
                    &&& f.digest.len() == self.spec_params().spec_effective_output_len()
                    &&& encode_utf8(text@) == spec_encode(f)
                }),
                Err(e) => e == Error::HashingFailure,
            },
            encode_utf8(password@).len() > u32::MAX ==> r is Err,
    {
        proof {
            use_type_invariant(self);
        }
        let pwd = password.as_bytes();
        if pwd.len() as u64 > 0xFFFF_FFFFu64 {
            return Err(Error::HashingFailure);
        }
        let out_len = self.params.effective_output_len();
        let digest = match argon2_digest(
            self.algorithm,
            KDF_VERSION,
            self.params.memory_cost,
            self.params.time_cost,
            self.params.parallelism,
            out_len,
            pwd,
            salt,
        ) {
            Ok(d) => d,
            Err(e) => {
                return Err(e);
            },
        };
        let h = EncodedHash {
            algorithm: self.algorithm,
            version: KDF_VERSION,
            memory_cost: self.params.memory_cost,
            time_cost: self.params.time_cost,
            parallelism: self.params.parallelism,
            salt: slice_to_vec(salt),
            digest,
        };
        Ok(h.encode())
    }

    /// Hash `password` with a fresh random salt. The text encodes exactly
    /// the fields of `fresh_fields` for some salt of `SALT_LEN` bytes; the
    /// salt is new on every call, so two hashes of one password differ
    /// whenever their salts do.
    pub fn hash(&self, password: &str) -> (r: Result<String, Error>)
        ensures
            match r {
                Ok(text) => exists|salt: Seq<u8>|
                    #![trigger self.fresh_fields(encode_utf8(password@), salt)]
                    {
                        let f = self.fresh_fields(encode_utf8(password@), salt);
                        &&& salt.len() == SALT_LEN
                        &&& f.valid()
                        &&& f.digest.len() == self.spec_params().spec_effective_output_len()
                        &&& encode_utf8(text@) == spec_encode(f)
                    },
                Err(e) => e == Error::HashingFailure,
            },
            encode_utf8(password@).len() > u32::MAX ==> r is Err,
    {
        let salt = match random_salt_bytes() {
            Ok(s) => s,
            Err(e) => {
                return Err(e);
            },
        };
        let r = self.hash_with_salt(password, salt.as_slice());
        proof {
            if r is Ok {
                let f = self.fresh_fields(encode_utf8(password@), salt@);
                assert(salt@.len() == SALT_LEN && f.valid() && f.digest.len()
                    == self.spec_params().spec_effective_output_len() && encode_utf8(
                    r->Ok_0@,
                ) == spec_encode(f));
            }
        }
        r
    }

    /// Verify `password` against a stored hash text. The parameters, salt
    /// and digest come from the text itself, never from this hasher's own
    /// configuration. `MalformedHash` exactly when the text does not parse;
    /// a parsed hash answers whether the re-derived digest matches, unless
    /// the primitive declines the derivation.
    pub fn verify(&self, hash: &str, password: &str) -> (r: Result<bool, Error>)
        ensures
            match r {
                Ok(b) => Self::spec_verify(encode_utf8(hash@), encode_utf8(password@)) == Some(b),
                Err(e) => {
                    &&& (e == Error::MalformedHash <==> spec_parse(encode_utf8(hash@)) is None)
                    &&& (e == Error::MalformedHash || e == Error::HashingFailure)
                },
            },
            spec_parse(encode_utf8(hash@)) is None ==> r == Err::<bool, Error>(
                Error::MalformedHash,
            ),
    {
        let h = match parse_encoded_hash(hash) {
            Ok(h) => h,
            Err(_) => {
                return Err(Error::MalformedHash);
            },
        };
        let pwd = password.as_bytes();
        if pwd.len() as u64 > 0xFFFF_FFFFu64 {
            return Err(Error::HashingFailure);
        }
        let out_len = h.digest.len() as u32;
        let derived = match argon2_digest(
            h.algorithm,
            h.version,
            h.memory_cost,
            h.time_cost,
            h.parallelism,
            out_len,
            pwd,
            h.salt.as_slice(),
        ) {
            Ok(d) => d,
            Err(_) => {
                return Err(Error::HashingFailure);
            },
        };
        Ok(ct_eq(derived.as_slice(), h.digest.as_slice()))
    }

    /// Report whether a stored hash was produced under another policy than
    /// this hasher's own: a different variant, or any cost field that
    /// differs. The password plays no part. `MalformedHash` exactly when
    /// the text does not parse.
    pub fn check_needs_rehash(&self, hash: &str) -> (r: Result<bool, Error>)
        ensures
            match r {
                Ok(b) => self.spec_needs_rehash(encode_utf8(hash@)) == Some(b),
                Err(e) => e == Error::MalformedHash && spec_parse(encode_utf8(hash@)) is None,
            },
    {
        let h = match parse_encoded_hash(hash) {
            Ok(h) => h,
            Err(_) => {
                return Err(Error::MalformedHash);
            },
        };
        let ps = self.params;
        let out_eff = ps.effective_output_len();
        let same = h.algorithm == self.algorithm && h.memory_cost == ps.memory_cost && h.time_cost
            == ps.time_cost && h.parallelism == ps.parallelism && h.digest.len() as u64
            == out_eff as u64;
        Ok(!same)
    }
}

/// Byte-for-byte comparison that always scans the whole buffer, so its
/// timing does not depend on the position of the first mismatch.
fn ct_eq(a: &[u8], b: &[u8]) -> (r: bool)
    ensures
        r == (a@ == b@),
{
    if a.len() != b.len() {
        proof {
            assert(a@ != b@);
        }
        return false;
    }
    let mut diff: u8 = 0;
    let mut i: usize = 0;
    while i < a.len()
        invariant
            i <= a@.len(),
            a@.len() == b@.len(),
            (diff == 0) <==> (forall|k: int| 0 <= k < i ==> a@[k] == b@[k]),
        decreases a@.len() - i,
    {
        let x = a[i];
        let y = b[i];
        proof {
            assert((diff | (x ^ y)) == 0 <==> (diff == 0 && x == y)) by (bit_vector);
        }
        diff = diff | (x ^ y);
        i = i + 1;
    }
    proof {
        if diff == 0 {
            assert(a@ =~= b@);
        } else {
            assert(a@ != b@);
        }
    }
    diff == 0
}

/// Verification answers over a fresh, well-formed text exactly as the
/// digest comparison goes: true when the candidate password derives the
/// stored digest, false when it does not. In particular a hash of a
/// password verifies against that password, and a candidate whose derived
/// digest differs is refused.
pub proof fn lemma_verify_of_encoding(f: SpecEncodedHash, pwd_bytes: Seq<u8>)
    requires
        f.valid(),
    ensures
        PasswordHasher::spec_verify(spec_encode(f), pwd_bytes) == Some(
            PasswordHasher::spec_digest_matches(f, pwd_bytes),
        ),
{
    lemma_parse_of_encode(f);
}

/// Two valid encoded hashes with different salts are different texts,
/// whatever their other fields: the salt alone separates fresh hashes.
pub proof fn lemma_distinct_salts_distinct_hashes(f: SpecEncodedHash, g: SpecEncodedHash)
    requires
        f.valid(),
        g.valid(),
        f.salt != g.salt,
    ensures
        spec_encode(f) != spec_encode(g),
{
    if spec_encode(f) == spec_encode(g) {
        lemma_encode_injective(f, g);
    }
}

/// A hash freshly produced by a hasher is never stale for that hasher: the
/// rehash check on its own output answers false.
pub proof fn lemma_fresh_hash_not_stale(h: PasswordHasher, pwd_bytes: Seq<u8>, salt: Seq<u8>)
    ensures
        ({
            let f = h.fresh_fields(pwd_bytes, salt);
            (f.valid() && f.digest.len() == h.spec_params().spec_effective_output_len())
                ==> h.spec_needs_rehash(spec_encode(f)) == Some(false)
        }),
{
    let f = h.fresh_fields(pwd_bytes, salt);
    if f.valid() && f.digest.len() == h.spec_params().spec_effective_output_len() {
        lemma_parse_of_encode(f);
    }
}

/// A stored hash whose memory cost differs from the hasher's, by however
/// little, is stale: the rehash check answers true.
pub proof fn lemma_changed_memory_cost_is_stale(h: PasswordHasher, f: SpecEncodedHash)
    requires
        f.valid(),
        f.memory_cost != h.spec_params().memory_cost,
    ensures
        h.spec_needs_rehash(spec_encode(f)) == Some(true),
{
    lemma_parse_of_encode(f);
}

} // verus!
