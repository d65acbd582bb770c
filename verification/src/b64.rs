use vstd::prelude::*;

verus! {

// Unpadded base64 with the standard alphabet, the form the encoded hash
// text carries its salt and digest in. Everything here is stated over byte
// sequences: the text is ASCII, so each character is one byte.

/// Is `c` a byte of the standard base64 alphabet?
pub open spec fn is_b64_byte(c: u8) -> bool {
    ||| 65 <= c <= 90  // 'A'..='Z'
    ||| 97 <= c <= 122  // 'a'..='z'
    ||| 48 <= c <= 57  // '0'..='9'
    ||| c == 43  // '+'
    ||| c == 47  // '/'
}

/// The alphabet byte for a six-bit value.
pub open spec fn b64_char(v: u8) -> u8
    recommends
        v < 64,
{
    if v < 26 {
        (65 + v) as u8
    } else if v < 52 {
        (97 + (v - 26)) as u8
    } else if v < 62 {
        (48 + (v - 52)) as u8
    } else if v == 62 {
        43
    } else {
        47
    }
}

/// The six-bit value of an alphabet byte.
pub open spec fn b64_val(c: u8) -> u8
    recommends
        is_b64_byte(c),
{
    if 65 <= c <= 90 {
        (c - 65) as u8
    } else if 97 <= c <= 122 {
        (c - 97 + 26) as u8
    } else if 48 <= c <= 57 {
        (c - 48 + 52) as u8
    } else if c == 43 {
        62
    } else {
        63
    }
}

pub proof fn lemma_char_val_inverse(v: u8)
    requires
        v < 64,
    ensures
        is_b64_byte(b64_char(v)),
        b64_val(b64_char(v)) == v,
{
}

pub proof fn lemma_val_char_inverse(c: u8)
    requires
        is_b64_byte(c),
    ensures
        b64_val(c) < 64,
        b64_char(b64_val(c)) == c,
{
}

/// The two characters that encode a final group of one byte.
pub open spec fn enc1(a: u8) -> Seq<u8> {
    seq![b64_char(a >> 2), b64_char((a & 3) << 4)]
}

/// The three characters that encode a final group of two bytes.
pub open spec fn enc2(a: u8, b: u8) -> Seq<u8> {
    seq![b64_char(a >> 2), b64_char(((a & 3) << 4) | (b >> 4)), b64_char((b & 15) << 2)]
}

/// The four characters that encode a full group of three bytes.
pub open spec fn enc3(a: u8, b: u8, c: u8) -> Seq<u8> {
    seq![
        b64_char(a >> 2),
        b64_char(((a & 3) << 4) | (b >> 4)),
        b64_char(((b & 15) << 2) | (c >> 6)),
        b64_char(c & 63),
    ]
}

/// Unpadded base64 of a byte sequence, built three input bytes at a time.
pub open spec fn spec_b64_encode(bs: Seq<u8>) -> Seq<u8>
    decreases bs.len(),
{
    if bs.len() == 0 {
        Seq::empty()
    } else if bs.len() == 1 {
        enc1(bs[0])
    } else if bs.len() == 2 {
        enc2(bs[0], bs[1])
    } else {
        enc3(bs[0], bs[1], bs[2]) + spec_b64_encode(bs.skip(3))
    }
}

/// First decoded byte of a group.
pub open spec fn db0(c0: u8, c1: u8) -> u8 {
    (b64_val(c0) << 2) | (b64_val(c1) >> 4)
}

/// Second decoded byte of a group.
pub open spec fn db1(c1: u8, c2: u8) -> u8 {
    ((b64_val(c1) & 15) << 4) | (b64_val(c2) >> 2)
}

/// Third decoded byte of a group.
pub open spec fn db2(c2: u8, c3: u8) -> u8 {
    ((b64_val(c2) & 3) << 6) | b64_val(c3)
}

/// Strict unpadded base64 decoding: `Some` exactly on canonical encodings,
/// which makes the codec lossless in both directions. A final group whose
/// unused low bits are not zero is rejected, as is a length that no byte
/// sequence encodes to.
pub open spec fn spec_b64_decode(s: Seq<u8>) -> Option<Seq<u8>>
    decreases s.len(),
{
    if s.len() == 0 {
        Some(Seq::empty())
    } else if s.len() == 1 {
        None
    } else if s.len() == 2 {
        if is_b64_byte(s[0]) && is_b64_byte(s[1]) && b64_val(s[1]) & 15 == 0 {
            Some(seq![db0(s[0], s[1])])
        } else {
            None
        }
    } else if s.len() == 3 {
        if is_b64_byte(s[0]) && is_b64_byte(s[1]) && is_b64_byte(s[2]) && b64_val(s[2]) & 3
            == 0 {
            Some(seq![db0(s[0], s[1]), db1(s[1], s[2])])
        } else {
            None
        }
    } else {
        if is_b64_byte(s[0]) && is_b64_byte(s[1]) && is_b64_byte(s[2]) && is_b64_byte(s[3]) {
            match spec_b64_decode(s.skip(4)) {
                Some(rest) => Some(
                    seq![db0(s[0], s[1]), db1(s[1], s[2]), db2(s[2], s[3])] + rest,
                ),
                None => None,
            }
        } else {
            None
        }
    }
}

/// The four sextets cut from a group of three bytes are six-bit values, and
/// reassembling them gives the bytes back.
proof fn lemma_bv_cut3(a: u8, b: u8, c: u8)
    ensures
        a >> 2 < 64,
        ((a & 3) << 4) | (b >> 4) < 64,
        ((b & 15) << 2) | (c >> 6) < 64,
        c & 63 < 64,
        ((a >> 2) << 2) | ((((a & 3) << 4) | (b >> 4)) >> 4) == a,
        (((((a & 3) << 4) | (b >> 4)) & 15) << 4) | ((((b & 15) << 2) | (c >> 6)) >> 2) == b,
        (((((b & 15) << 2) | (c >> 6)) & 3) << 6) | (c & 63) == c,
{
    assert(a >> 2 < 64 && ((a & 3) << 4) | (b >> 4) < 64 && ((b & 15) << 2) | (c >> 6) < 64 && c
        & 63 < 64 && ((a >> 2) << 2) | ((((a & 3) << 4) | (b >> 4)) >> 4) == a && (((((a & 3) << 4)
        | (b >> 4)) & 15) << 4) | ((((b & 15) << 2) | (c >> 6)) >> 2) == b && (((((b & 15) << 2) | (
        c >> 6)) & 3) << 6) | (c & 63) == c) by (bit_vector);
}

/// The same for a final group of two bytes: its third sextet has zero in
/// the unused low bits.
proof fn lemma_bv_cut2(a: u8, b: u8)
    ensures
        a >> 2 < 64,
        ((a & 3) << 4) | (b >> 4) < 64,
        (b & 15) << 2 < 64,
        ((b & 15) << 2) & 3 == 0,
        ((a >> 2) << 2) | ((((a & 3) << 4) | (b >> 4)) >> 4) == a,
        (((((a & 3) << 4) | (b >> 4)) & 15) << 4) | (((b & 15) << 2) >> 2) == b,
{
    assert(a >> 2 < 64 && ((a & 3) << 4) | (b >> 4) < 64 && (b & 15) << 2 < 64 && ((b & 15) << 2)
        & 3 == 0 && ((a >> 2) << 2) | ((((a & 3) << 4) | (b >> 4)) >> 4) == a && (((((a & 3) << 4)
        | (b >> 4)) & 15) << 4) | (((b & 15) << 2) >> 2) == b) by (bit_vector);
}

/// The same for a final group of one byte.
proof fn lemma_bv_cut1(a: u8)
    ensures
        a >> 2 < 64,
        (a & 3) << 4 < 64,
        ((a & 3) << 4) & 15 == 0,
        ((a >> 2) << 2) | (((a & 3) << 4) >> 4) == a,
{
    assert(a >> 2 < 64 && (a & 3) << 4 < 64 && ((a & 3) << 4) & 15 == 0 && ((a >> 2) << 2) | (((a
        & 3) << 4) >> 4) == a) by (bit_vector);
}

/// Cutting sextets back out of the bytes a full group decodes to gives the
/// original sextets.
proof fn lemma_bv_paste4(v0: u8, v1: u8, v2: u8, v3: u8)
    ensures
        v0 < 64 && v1 < 64 && v2 < 64 && v3 < 64 ==> ((v0 << 2) | (v1 >> 4)) >> 2 == v0
            && ((((v0 << 2) | (v1 >> 4)) & 3) << 4) | ((((v1 & 15) << 4) | (v2 >> 2)) >> 4) == v1
            && (((((v1 & 15) << 4) | (v2 >> 2)) & 15) << 2) | ((((v2 & 3) << 6) | v3) >> 6) == v2
            && (((v2 & 3) << 6) | v3) & 63 == v3,
{
    assert(v0 < 64 && v1 < 64 && v2 < 64 && v3 < 64 ==> ((v0 << 2) | (v1 >> 4)) >> 2 == v0 && ((((
    v0 << 2) | (v1 >> 4)) & 3) << 4) | ((((v1 & 15) << 4) | (v2 >> 2)) >> 4) == v1 && (((((v1 & 15)
        << 4) | (v2 >> 2)) & 15) << 2) | ((((v2 & 3) << 6) | v3) >> 6) == v2 && (((v2 & 3) << 6)
        | v3) & 63 == v3) by (bit_vector);
}

/// The same for a final group of three characters.
proof fn lemma_bv_paste3(v0: u8, v1: u8, v2: u8)
    ensures
        v0 < 64 && v1 < 64 && v2 < 64 && v2 & 3 == 0 ==> ((v0 << 2) | (v1 >> 4)) >> 2 == v0
            && ((((v0 << 2) | (v1 >> 4)) & 3) << 4) | ((((v1 & 15) << 4) | (v2 >> 2)) >> 4) == v1
            && ((((v1 & 15) << 4) | (v2 >> 2)) & 15) << 2 == v2,
{
    assert(v0 < 64 && v1 < 64 && v2 < 64 && v2 & 3 == 0 ==> ((v0 << 2) | (v1 >> 4)) >> 2 == v0
        && ((((v0 << 2) | (v1 >> 4)) & 3) << 4) | ((((v1 & 15) << 4) | (v2 >> 2)) >> 4) == v1 && ((
    ((v1 & 15) << 4) | (v2 >> 2)) & 15) << 2 == v2) by (bit_vector);
}

/// The same for a final group of two characters.
proof fn lemma_bv_paste2(v0: u8, v1: u8)
    ensures
        v0 < 64 && v1 < 64 && v1 & 15 == 0 ==> ((v0 << 2) | (v1 >> 4)) >> 2 == v0 && (((v0 << 2) | (
        v1 >> 4)) & 3) << 4 == v1,
{
    assert(v0 < 64 && v1 < 64 && v1 & 15 == 0 ==> ((v0 << 2) | (v1 >> 4)) >> 2 == v0 && (((v0 << 2)
        | (v1 >> 4)) & 3) << 4 == v1) by (bit_vector);
}

/// Every byte of an encoding is an alphabet byte.
pub proof fn lemma_encode_bytes_are_b64(bs: Seq<u8>)
    ensures
        forall|k: int|
            0 <= k < spec_b64_encode(bs).len() ==> is_b64_byte(#[trigger] spec_b64_encode(bs)[k]),
    decreases bs.len(),
{
    if bs.len() == 0 {
    } else if bs.len() == 1 {
        let a = bs[0];
        lemma_bv_cut1(a);
        lemma_char_val_inverse(a >> 2);
        lemma_char_val_inverse((a & 3) << 4);
    } else if bs.len() == 2 {
        let (a, b) = (bs[0], bs[1]);
        lemma_bv_cut2(a, b);
        lemma_char_val_inverse(a >> 2);
        lemma_char_val_inverse(((a & 3) << 4) | (b >> 4));
        lemma_char_val_inverse((b & 15) << 2);
    } else {
        let (a, b, c) = (bs[0], bs[1], bs[2]);
        lemma_bv_cut3(a, b, c);
        lemma_char_val_inverse(a >> 2);
        lemma_char_val_inverse(((a & 3) << 4) | (b >> 4));
        lemma_char_val_inverse(((b & 15) << 2) | (c >> 6));
        lemma_char_val_inverse(c & 63);
        lemma_encode_bytes_are_b64(bs.skip(3));
        assert forall|k: int| 0 <= k < spec_b64_encode(bs).len() implies is_b64_byte(
            #[trigger] spec_b64_encode(bs)[k],
        ) by {
            if k >= 4 {
                assert(spec_b64_encode(bs)[k] == spec_b64_encode(bs.skip(3))[k - 4]);
            }
        }
    }
}

/// Decoding inverts encoding: the codec loses nothing.
pub proof fn lemma_decode_of_encode(bs: Seq<u8>)
    ensures
        spec_b64_decode(spec_b64_encode(bs)) == Some(bs),
    decreases bs.len(),
{
    if bs.len() == 0 {
        assert(spec_b64_encode(bs) =~= Seq::<u8>::empty());
        assert(bs =~= Seq::<u8>::empty());
    } else if bs.len() == 1 {
        let a = bs[0];
        lemma_bv_cut1(a);
        lemma_char_val_inverse(a >> 2);
        lemma_char_val_inverse((a & 3) << 4);
        assert(spec_b64_decode(spec_b64_encode(bs)) =~= Some(bs));
    } else if bs.len() == 2 {
        let (a, b) = (bs[0], bs[1]);
        lemma_bv_cut2(a, b);
        lemma_char_val_inverse(a >> 2);
        lemma_char_val_inverse(((a & 3) << 4) | (b >> 4));
        lemma_char_val_inverse((b & 15) << 2);
        assert(spec_b64_decode(spec_b64_encode(bs)) =~= Some(bs));
    } else {
        let (a, b, c) = (bs[0], bs[1], bs[2]);
        let v0 = a >> 2;
        let v1 = ((a & 3) << 4) | (b >> 4);
        let v2 = ((b & 15) << 2) | (c >> 6);
        let v3 = c & 63;
        lemma_bv_cut3(a, b, c);
        lemma_char_val_inverse(v0);
        lemma_char_val_inverse(v1);
        lemma_char_val_inverse(v2);
        lemma_char_val_inverse(v3);
        lemma_decode_of_encode(bs.skip(3));
        let s = spec_b64_encode(bs);
        assert(s == enc3(a, b, c) + spec_b64_encode(bs.skip(3)));
        assert(s.len() >= 4);
        assert(s[0] == b64_char(v0) && s[1] == b64_char(v1) && s[2] == b64_char(v2) && s[3]
            == b64_char(v3));
        assert(s.skip(4) =~= spec_b64_encode(bs.skip(3)));
        assert(spec_b64_decode(s) =~= Some(bs)) by {
            assert(seq![db0(s[0], s[1]), db1(s[1], s[2]), db2(s[2], s[3])] + bs.skip(3) =~= bs);
        }
    }
}

/// Only encodings decode: a sequence that decodes is the encoding of its
/// decoding, so decoding accepts canonical text alone.
pub proof fn lemma_encode_of_decode(s: Seq<u8>, bs: Seq<u8>)
    requires
        spec_b64_decode(s) == Some(bs),
    ensures
        spec_b64_encode(bs) == s,
    decreases s.len(),
{
    if s.len() == 0 {
        assert(spec_b64_encode(bs) =~= s);
    } else if s.len() == 2 {
        lemma_val_char_inverse(s[0]);
        lemma_val_char_inverse(s[1]);
        lemma_bv_paste2(b64_val(s[0]), b64_val(s[1]));
        assert(spec_b64_encode(bs) =~= s);
    } else if s.len() == 3 {
        lemma_val_char_inverse(s[0]);
        lemma_val_char_inverse(s[1]);
        lemma_val_char_inverse(s[2]);
        lemma_bv_paste3(b64_val(s[0]), b64_val(s[1]), b64_val(s[2]));
        assert(spec_b64_encode(bs) =~= s);
    } else {
        lemma_val_char_inverse(s[0]);
        lemma_val_char_inverse(s[1]);
        lemma_val_char_inverse(s[2]);
        lemma_val_char_inverse(s[3]);
        lemma_bv_paste4(b64_val(s[0]), b64_val(s[1]), b64_val(s[2]), b64_val(s[3]));
        let rest = spec_b64_decode(s.skip(4))->Some_0;
        lemma_encode_of_decode(s.skip(4), rest);
        assert(bs == seq![db0(s[0], s[1]), db1(s[1], s[2]), db2(s[2], s[3])] + rest);
        assert(bs.len() >= 3);
        assert(bs.skip(3) =~= rest);
        assert(spec_b64_encode(bs) == enc3(bs[0], bs[1], bs[2]) + spec_b64_encode(bs.skip(3)));
        assert(spec_b64_encode(bs) =~= s);
    }
}

/// The alphabet byte for a six-bit value.
fn b64_char_ex(v: u8) -> (r: u8)
    requires
        v < 64,
    ensures
        r == b64_char(v),
{
    if v < 26 {
        65 + v
    } else if v < 52 {
        97 + (v - 26)
    } else if v < 62 {
        48 + (v - 52)
    } else if v == 62 {
        43
    } else {
        47
    }
}

/// Is `c` a byte of the standard base64 alphabet?
pub fn is_b64_byte_ex(c: u8) -> (r: bool)
    ensures
        r == is_b64_byte(c),
{
    (65 <= c && c <= 90) || (97 <= c && c <= 122) || (48 <= c && c <= 57) || c == 43 || c == 47
}

/// Whether a byte is in the alphabet, and its six-bit value if so.
fn b64_val_ex(c: u8) -> (r: Option<u8>)
    ensures
        match r {
            Some(v) => is_b64_byte(c) && v == b64_val(c),
            None => !is_b64_byte(c),
        },
{
    if 65 <= c && c <= 90 {
        Some(c - 65)
    } else if 97 <= c && c <= 122 {
        Some(c - 97 + 26)
    } else if 48 <= c && c <= 57 {
        Some(c - 48 + 52)
    } else if c == 43 {
        Some(62)
    } else if c == 47 {
        Some(63)
    } else {
        None
    }
}

/// Unpadded base64 of `bs`.
pub fn b64_encode(bs: &[u8]) -> (r: Vec<u8>)
    ensures
        r@ == spec_b64_encode(bs@),
{
    let mut out: Vec<u8> = Vec::new();
    let mut i: usize = 0;
    proof {
        assert(bs@.skip(0) =~= bs@);
    }
    while bs.len() - i >= 3
        invariant
            0 <= i <= bs@.len(),
            spec_b64_encode(bs@) == out@ + spec_b64_encode(bs@.skip(i as int)),
        decreases bs@.len() - i,
    {
        let (a, b, c) = (bs[i], bs[i + 1], bs[i + 2]);
        proof {
            assert(bs@.skip(i as int).len() >= 3);
            assert(bs@.skip(i as int)[0] == a && bs@.skip(i as int)[1] == b && bs@.skip(i as int)[2]
                == c);
            assert(bs@.skip(i as int).skip(3) =~= bs@.skip(i + 3));
            lemma_bv_cut3(a, b, c);
        }
        out.push(b64_char_ex(a >> 2));
        out.push(b64_char_ex(((a & 3) << 4) | (b >> 4)));
        out.push(b64_char_ex(((b & 15) << 2) | (c >> 6)));
        out.push(b64_char_ex(c & 63));
        i = i + 3;
    }
    if bs.len() - i == 1 {
        let a = bs[i];
        proof {
            assert(bs@.skip(i as int).len() == 1);
            assert(bs@.skip(i as int)[0] == a);
            lemma_bv_cut1(a);
        }
        out.push(b64_char_ex(a >> 2));
        out.push(b64_char_ex((a & 3) << 4));
        proof {
            assert(out@ =~= spec_b64_encode(bs@));
        }
    } else if bs.len() - i == 2 {
        let (a, b) = (bs[i], bs[i + 1]);
        proof {
            assert(bs@.skip(i as int).len() == 2);
            assert(bs@.skip(i as int)[0] == a && bs@.skip(i as int)[1] == b);
            lemma_bv_cut2(a, b);
        }
        out.push(b64_char_ex(a >> 2));
        out.push(b64_char_ex(((a & 3) << 4) | (b >> 4)));
        out.push(b64_char_ex((b & 15) << 2));
        proof {
            assert(out@ =~= spec_b64_encode(bs@));
        }
    } else {
        proof {
            assert(bs@.skip(i as int).len() == 0);
            assert(out@ =~= spec_b64_encode(bs@));
        }
    }
    out
}

/// Strict unpadded base64 decoding; `None` on anything non-canonical.
pub fn b64_decode(s: &[u8]) -> (r: Option<Vec<u8>>)
    ensures
        match r {
            Some(v) => spec_b64_decode(s@) == Some(v@),
            None => spec_b64_decode(s@) is None,
        },
{
    let mut out: Vec<u8> = Vec::new();
    let mut i: usize = 0;
    proof {
        assert(s@.skip(0) =~= s@);
    }
    while s.len() - i >= 4
        invariant
            0 <= i <= s@.len(),
            spec_b64_decode(s@) == match spec_b64_decode(s@.skip(i as int)) {
                Some(t) => Some(out@ + t),
                None => None::<Seq<u8>>,
            },
        decreases s@.len() - i,
    {
        proof {
            assert(s@.skip(i as int).len() >= 4);
            assert(s@.skip(i as int)[0] == s@[i as int] && s@.skip(i as int)[1] == s@[i + 1]
                && s@.skip(i as int)[2] == s@[i + 2] && s@.skip(i as int)[3] == s@[i + 3]);
            assert(s@.skip(i as int).skip(4) =~= s@.skip(i + 4));
        }
        let v0 = match b64_val_ex(s[i]) {
            Some(v) => v,
            None => {
                return None;
            },
        };
        let v1 = match b64_val_ex(s[i + 1]) {
            Some(v) => v,
            None => {
                return None;
            },
        };
        let v2 = match b64_val_ex(s[i + 2]) {
            Some(v) => v,
            None => {
                return None;
            },
        };
        let v3 = match b64_val_ex(s[i + 3]) {
            Some(v) => v,
            None => {
                return None;
            },
        };
        proof {
            lemma_val_char_inverse(s@[i as int]);
            lemma_val_char_inverse(s@[i + 1]);
            lemma_val_char_inverse(s@[i + 2]);
            lemma_val_char_inverse(s@[i + 3]);
        }
        out.push((v0 << 2) | (v1 >> 4));
        out.push(((v1 & 15) << 4) | (v2 >> 2));
        out.push(((v2 & 3) << 6) | v3);
        i = i + 4;
    }
    let rem = s.len() - i;
    if rem == 0 {
        proof {
            assert(s@.skip(i as int).len() == 0);
            assert(spec_b64_decode(s@) == Some(out@ + Seq::<u8>::empty()));
            assert(out@ + Seq::<u8>::empty() =~= out@);
        }
        Some(out)
    } else if rem == 1 {
        None
    } else if rem == 2 {
        proof {
            assert(s@.skip(i as int).len() == 2);
            assert(s@.skip(i as int)[0] == s@[i as int] && s@.skip(i as int)[1] == s@[i + 1]);
        }
        let v0 = match b64_val_ex(s[i]) {
            Some(v) => v,
            None => {
                return None;
            },
        };
        let v1 = match b64_val_ex(s[i + 1]) {
            Some(v) => v,
            None => {
                return None;
            },
        };
        if v1 & 15 != 0 {
            return None;
        }
        out.push((v0 << 2) | (v1 >> 4));
        proof {
            let t = spec_b64_decode(s@.skip(i as int))->Some_0;
            assert(out@ =~= out@.drop_last() + t);
        }
        Some(out)
    } else {
        proof {
            assert(s@.skip(i as int).len() == 3);
            assert(s@.skip(i as int)[0] == s@[i as int] && s@.skip(i as int)[1] == s@[i + 1]
                && s@.skip(i as int)[2] == s@[i + 2]);
        }
        let v0 = match b64_val_ex(s[i]) {
            Some(v) => v,
            None => {
                return None;
            },
        };
        let v1 = match b64_val_ex(s[i + 1]) {
            Some(v) => v,
            None => {
                return None;
            },
        };
        let v2 = match b64_val_ex(s[i + 2]) {
            Some(v) => v,
            None => {
                return None;
            },
        };
        if v2 & 3 != 0 {
            return None;
        }
        out.push((v0 << 2) | (v1 >> 4));
        out.push(((v1 & 15) << 4) | (v2 >> 2));
        proof {
            let t = spec_b64_decode(s@.skip(i as int))->Some_0;
            assert(out@ =~= out@.drop_last().drop_last() + t);
        }
        Some(out)
    }
}

} // verus!
