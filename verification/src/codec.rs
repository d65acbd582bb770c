use crate::b64::{
    b64_decode, b64_encode, is_b64_byte, is_b64_byte_ex, lemma_decode_of_encode,
    lemma_encode_bytes_are_b64, spec_b64_decode, spec_b64_encode,
};
use crate::digits::{
    digits_end, is_digit, lemma_digits_end_is, lemma_spec_dec_ok, parse_number, push_number,
    spec_dec, spec_parse_num,
};
use crate::params::{
    valid_costs, Algorithm, Error, ParameterSet, MAX_P_COST, MIN_OUTPUT_LEN, MIN_SALT_LEN,
};
use vstd::prelude::*;
use vstd::slice::slice_subrange;
use vstd::utf8::encode_utf8;

verus! {

// The encoded hash text:
//
//   $<algorithm>$v=<version>$m=<memory>,t=<time>,p=<lanes>$<salt>$<digest>
//
// with the cost fields in decimal and the salt and digest in unpadded
// base64. Everything here is stated over the byte sequence of that text.

/// The fields an encoded hash text carries, as one mathematical value.
pub ghost struct SpecEncodedHash {
    pub algorithm: Algorithm,
    pub version: u32,
    pub memory_cost: u32,
    pub time_cost: u32,
    pub parallelism: u32,
    pub salt: Seq<u8>,
    pub digest: Seq<u8>,
}

impl SpecEncodedHash {
    /// Fields the key-derivation primitive accepts: a version it knows,
    /// cost knobs in range, and salt and digest lengths within its bounds.
    pub open spec fn valid(self) -> bool {
        &&& (self.version == 16 || self.version == 19)
        &&& valid_costs(self.memory_cost, self.time_cost, self.parallelism)
        &&& MIN_SALT_LEN <= self.salt.len() <= u32::MAX
        &&& MIN_OUTPUT_LEN <= self.digest.len() <= u32::MAX
    }

    /// The parameter set this hash was produced under; the digest length
    /// stands in for the output-length knob.
    pub open spec fn params(self) -> ParameterSet {
        ParameterSet {
            time_cost: self.time_cost,
            memory_cost: self.memory_cost,
            parallelism: self.parallelism,
            output_length: Some(self.digest.len() as u32),
        }
    }
}

/// The identifier token of each variant.
pub open spec fn alg_tag(a: Algorithm) -> Seq<u8> {
    match a {
        Algorithm::Argon2id => seq![97u8, 114, 103, 111, 110, 50, 105, 100],  // "argon2id"
        Algorithm::Argon2d => seq![97u8, 114, 103, 111, 110, 50, 100],  // "argon2d"
        Algorithm::Argon2i => seq![97u8, 114, 103, 111, 110, 50, 105],  // "argon2i"
    }
}

/// "$v="
pub open spec fn tag_v() -> Seq<u8> {
    seq![36u8, 118, 61]
}

/// "$m="
pub open spec fn tag_m() -> Seq<u8> {
    seq![36u8, 109, 61]
}

/// ",t="
pub open spec fn tag_t() -> Seq<u8> {
    seq![44u8, 116, 61]
}

/// ",p="
pub open spec fn tag_p() -> Seq<u8> {
    seq![44u8, 112, 61]
}

/// The leading separator, algorithm token and version field.
pub open spec fn enc_head(f: SpecEncodedHash) -> Seq<u8> {
    seq![36u8] + alg_tag(f.algorithm) + tag_v() + spec_dec(f.version as nat)
}

/// The three cost fields.
pub open spec fn enc_costs(f: SpecEncodedHash) -> Seq<u8> {
    tag_m() + spec_dec(f.memory_cost as nat) + tag_t() + spec_dec(f.time_cost as nat) + tag_p()
        + spec_dec(f.parallelism as nat)
}

/// The salt and digest segments.
pub open spec fn enc_tail(f: SpecEncodedHash) -> Seq<u8> {
    seq![36u8] + spec_b64_encode(f.salt) + seq![36u8] + spec_b64_encode(f.digest)
}

/// The canonical text of a set of fields.
pub open spec fn spec_encode(f: SpecEncodedHash) -> Seq<u8> {
    enc_head(f) + enc_costs(f) + enc_tail(f)
}

// Positions of the fields inside the canonical text.
spec fn p_v(f: SpecEncodedHash) -> int {
    1 + alg_tag(f.algorithm).len() as int
}

spec fn p_vd(f: SpecEncodedHash) -> int {
    p_v(f) + 3
}

spec fn p_m(f: SpecEncodedHash) -> int {
    p_vd(f) + spec_dec(f.version as nat).len() as int
}

spec fn p_md(f: SpecEncodedHash) -> int {
    p_m(f) + 3
}

spec fn p_t(f: SpecEncodedHash) -> int {
    p_md(f) + spec_dec(f.memory_cost as nat).len() as int
}

spec fn p_td(f: SpecEncodedHash) -> int {
    p_t(f) + 3
}

spec fn p_p(f: SpecEncodedHash) -> int {
    p_td(f) + spec_dec(f.time_cost as nat).len() as int
}

spec fn p_pd(f: SpecEncodedHash) -> int {
    p_p(f) + 3
}

spec fn p_s(f: SpecEncodedHash) -> int {
    p_pd(f) + spec_dec(f.parallelism as nat).len() as int
}

spec fn p_sb(f: SpecEncodedHash) -> int {
    p_s(f) + 1
}

spec fn p_d(f: SpecEncodedHash) -> int {
    p_sb(f) + spec_b64_encode(f.salt).len() as int
}

spec fn p_db(f: SpecEncodedHash) -> int {
    p_d(f) + 1
}

spec fn p_end(f: SpecEncodedHash) -> int {
    p_db(f) + spec_b64_encode(f.digest).len() as int
}

/// Where each segment of the canonical text stands.
proof fn lemma_segments(f: SpecEncodedHash)
    ensures
        spec_encode(f).len() == p_end(f),
        enc_head(f).len() == p_m(f),
        enc_costs(f).len() == p_s(f) - p_m(f),
        spec_encode(f)[0] == 36,
        spec_encode(f).subrange(1, p_v(f)) == alg_tag(f.algorithm),
        spec_encode(f).subrange(p_v(f), p_vd(f)) == tag_v(),
        spec_encode(f).subrange(p_vd(f), p_m(f)) == spec_dec(f.version as nat),
        spec_encode(f).subrange(p_m(f), p_md(f)) == tag_m(),
        spec_encode(f).subrange(p_md(f), p_t(f)) == spec_dec(f.memory_cost as nat),
        spec_encode(f).subrange(p_t(f), p_td(f)) == tag_t(),
        spec_encode(f).subrange(p_td(f), p_p(f)) == spec_dec(f.time_cost as nat),
        spec_encode(f).subrange(p_p(f), p_pd(f)) == tag_p(),
        spec_encode(f).subrange(p_pd(f), p_s(f)) == spec_dec(f.parallelism as nat),
        spec_encode(f)[p_s(f)] == 36,
        spec_encode(f).subrange(p_sb(f), p_d(f)) == spec_b64_encode(f.salt),
        spec_encode(f)[p_d(f)] == 36,
        spec_encode(f).subrange(p_db(f), p_end(f)) == spec_b64_encode(f.digest),
{
    let h = enc_head(f);
    let c = enc_costs(f);
    let t = enc_tail(f);
    let s = spec_encode(f);
    let dv = spec_dec(f.version as nat);
    let dm = spec_dec(f.memory_cost as nat);
    let dt = spec_dec(f.time_cost as nat);
    let dp = spec_dec(f.parallelism as nat);
    let es = spec_b64_encode(f.salt);
    let ed = spec_b64_encode(f.digest);
    assert(h.len() == p_m(f));
    assert(c.len() == p_s(f) - p_m(f));
    assert(t.len() == p_end(f) - p_s(f));
    assert(s.len() == p_end(f));
    assert(h.subrange(1, p_v(f)) =~= alg_tag(f.algorithm));
    assert(h.subrange(p_v(f), p_vd(f)) =~= tag_v());
    assert(h.subrange(p_vd(f), p_m(f)) =~= dv);
    assert(c.subrange(0, 3) =~= tag_m());
    assert(c.subrange(3, 3 + dm.len() as int) =~= dm);
    assert(c.subrange(p_t(f) - p_m(f), p_td(f) - p_m(f)) =~= tag_t());
    assert(c.subrange(p_td(f) - p_m(f), p_p(f) - p_m(f)) =~= dt);
    assert(c.subrange(p_p(f) - p_m(f), p_pd(f) - p_m(f)) =~= tag_p());
    assert(c.subrange(p_pd(f) - p_m(f), p_s(f) - p_m(f)) =~= dp);
    assert(t[0] == 36);
    assert(t.subrange(1, 1 + es.len() as int) =~= es);
    assert(t[1 + es.len() as int] == 36);
    assert(t.subrange(2 + es.len() as int, t.len() as int) =~= ed);
    // lift each part-relative segment to the whole text
    assert(s[0] == h[0]);
    assert(s.subrange(1, p_v(f)) =~= h.subrange(1, p_v(f)));
    assert(s.subrange(p_v(f), p_vd(f)) =~= h.subrange(p_v(f), p_vd(f)));
    assert(s.subrange(p_vd(f), p_m(f)) =~= h.subrange(p_vd(f), p_m(f)));
    assert(s.subrange(p_m(f), p_md(f)) =~= c.subrange(0, 3));
    assert(s.subrange(p_md(f), p_t(f)) =~= c.subrange(3, 3 + dm.len() as int));
    assert(s.subrange(p_t(f), p_td(f)) =~= c.subrange(p_t(f) - p_m(f), p_td(f) - p_m(f)));
    assert(s.subrange(p_td(f), p_p(f)) =~= c.subrange(p_td(f) - p_m(f), p_p(f) - p_m(f)));
    assert(s.subrange(p_p(f), p_pd(f)) =~= c.subrange(p_p(f) - p_m(f), p_pd(f) - p_m(f)));
    assert(s.subrange(p_pd(f), p_s(f)) =~= c.subrange(p_pd(f) - p_m(f), p_s(f) - p_m(f)));
    assert(s[p_s(f)] == t[0]);
    assert(s.subrange(p_sb(f), p_d(f)) =~= t.subrange(1, 1 + es.len() as int));
    assert(s[p_d(f)] == t[1 + es.len() as int]);
    assert(s.subrange(p_db(f), p_end(f)) =~= t.subrange(2 + es.len() as int, t.len() as int));
}

/// Does `tag` stand at position `i` of `s`?
pub open spec fn match_at(s: Seq<u8>, i: int, tag: Seq<u8>) -> bool {
    &&& 0 <= i
    &&& i + tag.len() <= s.len()
    &&& s.subrange(i, i + tag.len()) == tag
}

/// The algorithm token after the leading separator, longest token first,
/// with the position that follows it.
pub open spec fn parse_alg(s: Seq<u8>) -> Option<(Algorithm, int)> {
    if match_at(s, 1, alg_tag(Algorithm::Argon2id)) {
        Some((Algorithm::Argon2id, 9))
    } else if match_at(s, 1, alg_tag(Algorithm::Argon2d)) {
        Some((Algorithm::Argon2d, 8))
    } else if match_at(s, 1, alg_tag(Algorithm::Argon2i)) {
        Some((Algorithm::Argon2i, 8))
    } else {
        None
    }
}

/// First position at or after `i` that does not hold a base64 byte.
pub open spec fn b64_end(s: Seq<u8>, i: int) -> int
    decreases s.len() - i,
{
    if i < 0 || i >= s.len() || !is_b64_byte(s[i]) {
        i
    } else {
        b64_end(s, i + 1)
    }
}

/// `b64_end` is the unique boundary: alphabet bytes before, none at it.
pub proof fn lemma_b64_end_is(s: Seq<u8>, i: int, j: int)
    requires
        0 <= i <= j <= s.len(),
        forall|k: int| i <= k < j ==> is_b64_byte(#[trigger] s[k]),
        j == s.len() || !is_b64_byte(s[j]),
    ensures
        b64_end(s, i) == j,
    decreases j - i,
{
    if i < j {
        lemma_b64_end_is(s, i + 1, j);
    }
}

/// The salt and digest segments from position `i4`, and the assembled
/// fields, provided everything past the cost fields is well-formed.
pub open spec fn spec_parse_tail(
    s: Seq<u8>,
    alg: Algorithm,
    version: u32,
    m: u32,
    t: u32,
    p: u32,
    i4: int,
) -> Option<SpecEncodedHash> {
    if !(0 <= i4 < s.len() && s[i4] == 36) {
        None
    } else {
        let j1 = b64_end(s, i4 + 1);
        if !(j1 < s.len() && s[j1] == 36) {
            None
        } else {
            let j2 = b64_end(s, j1 + 1);
            if j2 != s.len() {
                None
            } else {
                match spec_b64_decode(s.subrange(i4 + 1, j1)) {
                    None => None,
                    Some(salt) => match spec_b64_decode(s.subrange(j1 + 1, j2)) {
                        None => None,
                        Some(digest) => {
                            let f = SpecEncodedHash {
                                algorithm: alg,
                                version,
                                memory_cost: m,
                                time_cost: t,
                                parallelism: p,
                                salt,
                                digest,
                            };
                            if f.valid() {
                                Some(f)
                            } else {
                                None
                            }
                        },
                    },
                }
            }
        }
    }
}

/// What a byte sequence parses to: the fields, exactly when the text is the
/// canonical encoding of a valid set of fields.
pub open spec fn spec_parse(s: Seq<u8>) -> Option<SpecEncodedHash> {
    if s.len() < 1 || s[0] != 36 {
        None
    } else {
        match parse_alg(s) {
            None => None,
            Some((alg, i0)) => {
                if !match_at(s, i0, tag_v()) {
                    None
                } else {
                    match spec_parse_num(s, i0 + 3) {
                        None => None,
                        Some((version, i1)) => {
                            if !match_at(s, i1, tag_m()) {
                                None
                            } else {
                                match spec_parse_num(s, i1 + 3) {
                                    None => None,
                                    Some((m, i2)) => {
                                        if !match_at(s, i2, tag_t()) {
                                            None
                                        } else {
                                            match spec_parse_num(s, i2 + 3) {
                                                None => None,
                                                Some((t, i3)) => {
                                                    if !match_at(s, i3, tag_p()) {
                                                        None
                                                    } else {
                                                        match spec_parse_num(s, i3 + 3) {
                                                            None => None,
                                                            Some((p, i4)) => spec_parse_tail(
                                                                s,
                                                                alg,
                                                                version,
                                                                m,
                                                                t,
                                                                p,
                                                                i4,
                                                            ),
                                                        }
                                                    }
                                                },
                                            }
                                        }
                                    },
                                }
                            }
                        },
                    }
                }
            },
        }
    }
}


/// The codec round trip: the canonical text of any valid set of fields
/// parses back to exactly those fields, so the encoding is lossless.
#[verifier::rlimit(100)]
pub proof fn lemma_parse_of_encode(f: SpecEncodedHash)
    requires
        f.valid(),
    ensures
        spec_parse(spec_encode(f)) == Some(f),
{
    let s = spec_encode(f);
    let tag = alg_tag(f.algorithm);
    let dv = spec_dec(f.version as nat);
    let dm = spec_dec(f.memory_cost as nat);
    let dt = spec_dec(f.time_cost as nat);
    let dp = spec_dec(f.parallelism as nat);
    let es = spec_b64_encode(f.salt);
    let ed = spec_b64_encode(f.digest);
    lemma_segments(f);
    lemma_spec_dec_ok(f.version as nat);
    lemma_spec_dec_ok(f.memory_cost as nat);
    lemma_spec_dec_ok(f.time_cost as nat);
    lemma_spec_dec_ok(f.parallelism as nat);
    lemma_encode_bytes_are_b64(f.salt);
    lemma_encode_bytes_are_b64(f.digest);
    lemma_decode_of_encode(f.salt);
    lemma_decode_of_encode(f.digest);
    // the algorithm token resolves to the right variant
    assert(s[p_v(f)] == 36);
    match f.algorithm {
        Algorithm::Argon2id => {
            assert(match_at(s, 1, tag));
            assert(parse_alg(s) == Some((f.algorithm, p_v(f))));
        },
        Algorithm::Argon2d => {
            assert(s[7] == s.subrange(1, p_v(f))[6]);
            assert(s[7] == 100);
            assert(alg_tag(Algorithm::Argon2id)[6] == 105);
            assert(!match_at(s, 1, alg_tag(Algorithm::Argon2id))) by {
                if match_at(s, 1, alg_tag(Algorithm::Argon2id)) {
                    assert(s.subrange(1, 9)[6] == s[7]);
                }
            }
            assert(match_at(s, 1, tag));
            assert(parse_alg(s) == Some((f.algorithm, p_v(f))));
        },
        Algorithm::Argon2i => {
            assert(s[8] == s.subrange(p_v(f), p_vd(f))[0]);
            assert(s[8] == 36);
            assert(alg_tag(Algorithm::Argon2id)[7] == 100);
            assert(!match_at(s, 1, alg_tag(Algorithm::Argon2id))) by {
                if match_at(s, 1, alg_tag(Algorithm::Argon2id)) {
                    assert(s.subrange(1, 9)[7] == s[8]);
                }
            }
            assert(s[7] == s.subrange(1, p_v(f))[6]);
            assert(s[7] == 105);
            assert(alg_tag(Algorithm::Argon2d)[6] == 100);
            assert(!match_at(s, 1, alg_tag(Algorithm::Argon2d))) by {
                if match_at(s, 1, alg_tag(Algorithm::Argon2d)) {
                    assert(s.subrange(1, 8)[6] == s[7]);
                }
            }
            assert(match_at(s, 1, tag));
            assert(parse_alg(s) == Some((f.algorithm, p_v(f))));
        },
    }
    // the four cost fields read back as themselves
    assert(match_at(s, p_v(f), tag_v()));
    assert forall|k: int| p_vd(f) <= k < p_m(f) implies is_digit(s[k]) by {
        assert(s[k] == s.subrange(p_vd(f), p_m(f))[k - p_vd(f)]);
    }
    assert(s[p_m(f)] == s.subrange(p_m(f), p_md(f))[0]);
    assert(!is_digit(s[p_m(f)]));
    lemma_digits_end_is(s, p_vd(f), p_m(f));
    assert(spec_parse_num(s, p_vd(f)) == Some((f.version, p_m(f))));
    assert(match_at(s, p_m(f), tag_m()));
    assert forall|k: int| p_md(f) <= k < p_t(f) implies is_digit(s[k]) by {
        assert(s[k] == s.subrange(p_md(f), p_t(f))[k - p_md(f)]);
    }
    assert(s[p_t(f)] == s.subrange(p_t(f), p_td(f))[0]);
    assert(!is_digit(s[p_t(f)]));
    lemma_digits_end_is(s, p_md(f), p_t(f));
    assert(spec_parse_num(s, p_md(f)) == Some((f.memory_cost, p_t(f))));
    assert(match_at(s, p_t(f), tag_t()));
    assert forall|k: int| p_td(f) <= k < p_p(f) implies is_digit(s[k]) by {
        assert(s[k] == s.subrange(p_td(f), p_p(f))[k - p_td(f)]);
    }
    assert(s[p_p(f)] == s.subrange(p_p(f), p_pd(f))[0]);
    assert(!is_digit(s[p_p(f)]));
    lemma_digits_end_is(s, p_td(f), p_p(f));
    assert(spec_parse_num(s, p_td(f)) == Some((f.time_cost, p_p(f))));
    assert(match_at(s, p_p(f), tag_p()));
    assert forall|k: int| p_pd(f) <= k < p_s(f) implies is_digit(s[k]) by {
        assert(s[k] == s.subrange(p_pd(f), p_s(f))[k - p_pd(f)]);
    }
    assert(!is_digit(s[p_s(f)]));
    lemma_digits_end_is(s, p_pd(f), p_s(f));
    assert(spec_parse_num(s, p_pd(f)) == Some((f.parallelism, p_s(f))));
    // the salt and digest segments decode to the original bytes
    assert forall|k: int| p_sb(f) <= k < p_d(f) implies is_b64_byte(s[k]) by {
        assert(s[k] == s.subrange(p_sb(f), p_d(f))[k - p_sb(f)]);
    }
    assert(!is_b64_byte(s[p_d(f)]));
    lemma_b64_end_is(s, p_sb(f), p_d(f));
    assert forall|k: int| p_db(f) <= k < p_end(f) implies is_b64_byte(s[k]) by {
        assert(s[k] == s.subrange(p_db(f), p_end(f))[k - p_db(f)]);
    }
    lemma_b64_end_is(s, p_db(f), p_end(f));
    assert(spec_b64_decode(s.subrange(p_sb(f), p_d(f))) == Some(f.salt));
    assert(spec_b64_decode(s.subrange(p_db(f), p_end(f))) == Some(f.digest));
    assert(spec_parse_tail(
        s,
        f.algorithm,
        f.version,
        f.memory_cost,
        f.time_cost,
        f.parallelism,
        p_s(f),
    ) == Some(f));
    assert(spec_parse(s) == Some(f));
}

/// No two valid field sets share an encoding: the text pins the fields.
pub proof fn lemma_encode_injective(f: SpecEncodedHash, g: SpecEncodedHash)
    requires
        f.valid(),
        g.valid(),
        spec_encode(f) == spec_encode(g),
    ensures
        f == g,
{
    lemma_parse_of_encode(f);
    lemma_parse_of_encode(g);
}


/// A parsed encoded hash: the algorithm, version, cost fields, and the raw
/// salt and digest bytes.
#[derive(Debug, PartialEq, Eq)]
pub struct EncodedHash {
    pub algorithm: Algorithm,
    pub version: u32,
    pub memory_cost: u32,
    pub time_cost: u32,
    pub parallelism: u32,
    pub salt: Vec<u8>,
    pub digest: Vec<u8>,
}

impl View for EncodedHash {
    type V = SpecEncodedHash;

    open spec fn view(&self) -> SpecEncodedHash {
        SpecEncodedHash {
            algorithm: self.algorithm,
            version: self.version,
            memory_cost: self.memory_cost,
            time_cost: self.time_cost,
            parallelism: self.parallelism,
            salt: self.salt@,
            digest: self.digest@,
        }
    }
}

/// Does the three-byte tag stand at position `i`?
fn expect3(s: &[u8], i: usize, b0: u8, b1: u8, b2: u8) -> (r: bool)
    requires
        i <= s@.len(),
    ensures
        r == match_at(s@, i as int, seq![b0, b1, b2]),
{
    if s.len() - i >= 3 && s[i] == b0 && s[i + 1] == b1 && s[i + 2] == b2 {
        proof {
            assert(s@.subrange(i as int, i + 3) =~= seq![b0, b1, b2]);
        }
        true
    } else {
        proof {
            if i + 3 <= s@.len() {
                let sub = s@.subrange(i as int, i + 3);
                assert(sub[0] == s@[i as int] && sub[1] == s@[i + 1] && sub[2] == s@[i + 2]);
                assert(seq![b0, b1, b2][0] == b0 && seq![b0, b1, b2][1] == b1 && seq![b0, b1, b2][2]
                    == b2);
            }
        }
        false
    }
}

/// Scan the run of base64 bytes starting at `i`.
fn scan_b64(s: &[u8], i: usize) -> (j: usize)
    requires
        i <= s@.len(),
    ensures
        i <= j <= s@.len(),
        b64_end(s@, i as int) == j as int,
        forall|k: int| i <= k < j ==> is_b64_byte(#[trigger] s@[k]),
        j == s@.len() || !is_b64_byte(s@[j as int]),
{
    let mut j = i;
    while j < s.len() && is_b64_byte_ex(s[j])
        invariant
            i <= j <= s@.len(),
            forall|k: int| i <= k < j ==> is_b64_byte(#[trigger] s@[k]),
        decreases s@.len() - j,
    {
        j = j + 1;
    }
    proof {
        lemma_b64_end_is(s@, i as int, j as int);
    }
    j
}

/// The algorithm token at the head of the text, longest token first.
fn parse_alg_ex(s: &[u8]) -> (r: Option<(Algorithm, usize)>)
    ensures
        match r {
            Some((a, i)) => parse_alg(s@) == Some((a, i as int)),
            None => parse_alg(s@) is None,
        },
{
    let id_ok = s.len() >= 9 && s[1] == 97 && s[2] == 114 && s[3] == 103 && s[4] == 111 && s[5]
        == 110 && s[6] == 50 && s[7] == 105 && s[8] == 100;
    proof {
        let tg = alg_tag(Algorithm::Argon2id);
        assert(tg[0] == 97 && tg[1] == 114 && tg[2] == 103 && tg[3] == 111 && tg[4] == 110 && tg[5]
            == 50 && tg[6] == 105 && tg[7] == 100);
        if id_ok {
            assert(s@.subrange(1, 9) =~= tg);
        } else {
            if match_at(s@, 1, tg) {
                let sub = s@.subrange(1, 9);
                assert(sub[0] == s@[1] && sub[1] == s@[2] && sub[2] == s@[3] && sub[3] == s@[4]
                    && sub[4] == s@[5] && sub[5] == s@[6] && sub[6] == s@[7] && sub[7] == s@[8]);
            }
        }
    }
    if id_ok {
        return Some((Algorithm::Argon2id, 9));
    }
    let d_ok = s.len() >= 8 && s[1] == 97 && s[2] == 114 && s[3] == 103 && s[4] == 111 && s[5]
        == 110 && s[6] == 50 && s[7] == 100;
    proof {
        let tg = alg_tag(Algorithm::Argon2d);
        assert(tg[0] == 97 && tg[1] == 114 && tg[2] == 103 && tg[3] == 111 && tg[4] == 110 && tg[5]
            == 50 && tg[6] == 100);
        if d_ok {
            assert(s@.subrange(1, 8) =~= tg);
        } else {
            if match_at(s@, 1, tg) {
                let sub = s@.subrange(1, 8);
                assert(sub[0] == s@[1] && sub[1] == s@[2] && sub[2] == s@[3] && sub[3] == s@[4]
                    && sub[4] == s@[5] && sub[5] == s@[6] && sub[6] == s@[7]);
            }
        }
    }
    if d_ok {
        return Some((Algorithm::Argon2d, 8));
    }
    let i_ok = s.len() >= 8 && s[1] == 97 && s[2] == 114 && s[3] == 103 && s[4] == 111 && s[5]
        == 110 && s[6] == 50 && s[7] == 105;
    proof {
        let tg = alg_tag(Algorithm::Argon2i);
        assert(tg[0] == 97 && tg[1] == 114 && tg[2] == 103 && tg[3] == 111 && tg[4] == 110 && tg[5]
            == 50 && tg[6] == 105);
        if i_ok {
            assert(s@.subrange(1, 8) =~= tg);
        } else {
            if match_at(s@, 1, tg) {
                let sub = s@.subrange(1, 8);
                assert(sub[0] == s@[1] && sub[1] == s@[2] && sub[2] == s@[3] && sub[3] == s@[4]
                    && sub[4] == s@[5] && sub[5] == s@[6] && sub[6] == s@[7]);
            }
        }
    }
    if i_ok {
        return Some((Algorithm::Argon2i, 8));
    }
    None
}

/// Parse an encoded hash text, exactly as `spec_parse` has it: the result
/// is `Some` precisely on the canonical encoding of a valid set of fields.
pub fn parse_bytes(s: &[u8]) -> (r: Option<EncodedHash>)
    ensures
        match r {
            Some(h) => spec_parse(s@) == Some(h@) && h@.valid(),
            None => spec_parse(s@) is None,
        },
{
    if s.len() < 1 || s[0] != 36 {
        return None;
    }
    let (alg, i0) = match parse_alg_ex(s) {
        Some(x) => x,
        None => {
            return None;
        },
    };
    if !expect3(s, i0, 36, 118, 61) {
        return None;
    }
    let (version, i1) = match parse_number(s, i0 + 3) {
        Some(x) => x,
        None => {
            return None;
        },
    };
    if !expect3(s, i1, 36, 109, 61) {
        return None;
    }
    let (memory_cost, i2) = match parse_number(s, i1 + 3) {
        Some(x) => x,
        None => {
            return None;
        },
    };
    if !expect3(s, i2, 44, 116, 61) {
        return None;
    }
    let (time_cost, i3) = match parse_number(s, i2 + 3) {
        Some(x) => x,
        None => {
            return None;
        },
    };
    if !expect3(s, i3, 44, 112, 61) {
        return None;
    }
    let (parallelism, i4) = match parse_number(s, i3 + 3) {
        Some(x) => x,
        None => {
            return None;
        },
    };
    if i4 >= s.len() || s[i4] != 36 {
        return None;
    }
    let j1 = scan_b64(s, i4 + 1);
    if j1 >= s.len() || s[j1] != 36 {
        return None;
    }
    let j2 = scan_b64(s, j1 + 1);
    if j2 != s.len() {
        return None;
    }
    let salt = match b64_decode(slice_subrange(s, i4 + 1, j1)) {
        Some(v) => v,
        None => {
            return None;
        },
    };
    let digest = match b64_decode(slice_subrange(s, j1 + 1, j2)) {
        Some(v) => v,
        None => {
            return None;
        },
    };
    if !(version == 16 || version == 19) {
        return None;
    }
    if time_cost < 1 || parallelism < 1 || parallelism > MAX_P_COST || (memory_cost as u64) < 8u64
        * (parallelism as u64) {
        return None;
    }
    if salt.len() < 8 || (salt.len() as u64) > 0xFFFF_FFFFu64 {
        return None;
    }
    if digest.len() < 4 || (digest.len() as u64) > 0xFFFF_FFFFu64 {
        return None;
    }
    Some(EncodedHash { algorithm: alg, version, memory_cost, time_cost, parallelism, salt, digest })
}

/// Append a three-byte tag.
fn push_tag3(out: &mut Vec<u8>, b0: u8, b1: u8, b2: u8)
    ensures
        final(out)@ == old(out)@ + seq![b0, b1, b2],
{
    out.push(b0);
    out.push(b1);
    out.push(b2);
    assert(final(out)@ =~= old(out)@ + seq![b0, b1, b2]);
}

/// Append the algorithm token.
fn push_alg_tag(out: &mut Vec<u8>, a: Algorithm)
    ensures
        final(out)@ == old(out)@ + alg_tag(a),
{
    out.push(97);
    out.push(114);
    out.push(103);
    out.push(111);
    out.push(110);
    out.push(50);
    match a {
        Algorithm::Argon2id => {
            out.push(105);
            out.push(100);
            assert(final(out)@ =~= old(out)@ + alg_tag(a));
        },
        Algorithm::Argon2d => {
            out.push(100);
            assert(final(out)@ =~= old(out)@ + alg_tag(a));
        },
        Algorithm::Argon2i => {
            out.push(105);
            assert(final(out)@ =~= old(out)@ + alg_tag(a));
        },
    }
}

impl EncodedHash {
    /// The canonical text of these fields, as bytes.
    pub fn encode_bytes(&self) -> (r: Vec<u8>)
        ensures
            r@ == spec_encode(self@),
    {
        let mut out: Vec<u8> = Vec::new();
        out.push(36);
        push_alg_tag(&mut out, self.algorithm);
        push_tag3(&mut out, 36, 118, 61);
        push_number(&mut out, self.version);
        proof {
            assert(out@ =~= enc_head(self@));
        }
        push_tag3(&mut out, 36, 109, 61);
        push_number(&mut out, self.memory_cost);
        push_tag3(&mut out, 44, 116, 61);
        push_number(&mut out, self.time_cost);
        push_tag3(&mut out, 44, 112, 61);
        push_number(&mut out, self.parallelism);
        proof {
            assert(out@ =~= enc_head(self@) + enc_costs(self@));
        }
        out.push(36);
        let mut es = b64_encode(self.salt.as_slice());
        out.append(&mut es);
        out.push(36);
        let mut ed = b64_encode(self.digest.as_slice());
        out.append(&mut ed);
        proof {
            assert(out@ =~= spec_encode(self@));
        }
        out
    }
}


/// Every byte of a canonical text is ASCII.
#[verifier::rlimit(60)]
proof fn lemma_encode_ascii(f: SpecEncodedHash)
    ensures
        forall|k: int| 0 <= k < spec_encode(f).len() ==> spec_encode(f)[k] < 128,
{
    lemma_segments(f);
    lemma_spec_dec_ok(f.version as nat);
    lemma_spec_dec_ok(f.memory_cost as nat);
    lemma_spec_dec_ok(f.time_cost as nat);
    lemma_spec_dec_ok(f.parallelism as nat);
    lemma_encode_bytes_are_b64(f.salt);
    lemma_encode_bytes_are_b64(f.digest);
    let s = spec_encode(f);
    let tg = alg_tag(f.algorithm);
    assert(forall|j: int| 0 <= j < tg.len() ==> tg[j] < 128) by {
        match f.algorithm {
            Algorithm::Argon2id => {
                assert(forall|j: int|
                    0 <= j < alg_tag(Algorithm::Argon2id).len() ==> alg_tag(Algorithm::Argon2id)[j]
                        < 128);
            },
            Algorithm::Argon2d => {
                assert(forall|j: int|
                    0 <= j < alg_tag(Algorithm::Argon2d).len() ==> alg_tag(Algorithm::Argon2d)[j]
                        < 128);
            },
            Algorithm::Argon2i => {
                assert(forall|j: int|
                    0 <= j < alg_tag(Algorithm::Argon2i).len() ==> alg_tag(Algorithm::Argon2i)[j]
                        < 128);
            },
        }
    }
    assert forall|k: int| 0 <= k < s.len() implies s[k] < 128 by {
        if k == 0 {
        } else if k < p_v(f) {
            assert(s[k] == s.subrange(1, p_v(f))[k - 1]);
        } else if k < p_vd(f) {
            assert(s[k] == s.subrange(p_v(f), p_vd(f))[k - p_v(f)]);
        } else if k < p_m(f) {
            assert(s[k] == s.subrange(p_vd(f), p_m(f))[k - p_vd(f)]);
        } else if k < p_md(f) {
            assert(s[k] == s.subrange(p_m(f), p_md(f))[k - p_m(f)]);
        } else if k < p_t(f) {
            assert(s[k] == s.subrange(p_md(f), p_t(f))[k - p_md(f)]);
        } else if k < p_td(f) {
            assert(s[k] == s.subrange(p_t(f), p_td(f))[k - p_t(f)]);
        } else if k < p_p(f) {
            assert(s[k] == s.subrange(p_td(f), p_p(f))[k - p_td(f)]);
        } else if k < p_pd(f) {
            assert(s[k] == s.subrange(p_p(f), p_pd(f))[k - p_p(f)]);
        } else if k < p_s(f) {
            assert(s[k] == s.subrange(p_pd(f), p_s(f))[k - p_pd(f)]);
        } else if k == p_s(f) {
        } else if k < p_d(f) {
            assert(s[k] == s.subrange(p_sb(f), p_d(f))[k - p_sb(f)]);
        } else if k == p_d(f) {
        } else {
            assert(s[k] == s.subrange(p_db(f), p_end(f))[k - p_db(f)]);
        }
    }
}

/// Relies on String::from_utf8: bytes below 128 are valid UTF-8 and decode
/// one character per byte, so the string's UTF-8 bytes are the input again.
#[verifier::external_body]
fn ascii_to_string(v: Vec<u8>) -> (r: String)
    requires
        forall|k: int| 0 <= k < v@.len() ==> v@[k] < 128,
    ensures
        encode_utf8(r@) == v@,
{
    String::from_utf8(v).unwrap_or_default()
}

impl EncodedHash {
    /// The parameter set this hash was produced under, with the digest
    /// length standing in for the output-length knob.
    pub fn parameter_set(&self) -> (r: ParameterSet)
        requires
            self@.digest.len() <= u32::MAX,
        ensures
            r == self@.params(),
    {
        ParameterSet {
            time_cost: self.time_cost,
            memory_cost: self.memory_cost,
            parallelism: self.parallelism,
            output_length: Some(self.digest.len() as u32),
        }
    }

    /// The canonical text of these fields.
    pub fn encode(&self) -> (r: String)
        ensures
            encode_utf8(r@) == spec_encode(self@),
    {
        let bytes = self.encode_bytes();
        proof {
            lemma_encode_ascii(self@);
        }
        ascii_to_string(bytes)
    }
}

/// Parse an encoded hash text. `MalformedHash` exactly when the text is not
/// the canonical encoding of a valid set of fields.
pub fn parse_encoded_hash(s: &str) -> (r: Result<EncodedHash, Error>)
    ensures
        match r {
            Ok(h) => spec_parse(encode_utf8(s@)) == Some(h@) && h@.valid(),
            Err(e) => e == Error::MalformedHash && spec_parse(encode_utf8(s@)) is None,
        },
{
    match parse_bytes(s.as_bytes()) {
        Some(h) => Ok(h),
        None => Err(Error::MalformedHash),
    }
}

} // verus!
