use vstd::arithmetic::div_mod::lemma_fundamental_div_mod;
use vstd::prelude::*;

verus! {

// Decimal cost fields of the encoded hash text: canonical digit runs,
// without sign, padding or leading zeroes.

/// Is `c` an ASCII decimal digit?
pub open spec fn is_digit(c: u8) -> bool {
    48 <= c <= 57
}

/// The decimal digits of `n`, most significant first.
pub open spec fn spec_dec(n: nat) -> Seq<u8>
    decreases n,
{
    if n < 10 {
        seq![(48 + n) as u8]
    } else {
        spec_dec(n / 10) + seq![(48 + n % 10) as u8]
    }
}

/// The number a digit run denotes.
pub open spec fn dec_val(s: Seq<u8>) -> nat
    recommends
        forall|k: int| 0 <= k < s.len() ==> is_digit(s[k]),
    decreases s.len(),
{
    if s.len() == 0 {
        0
    } else {
        dec_val(s.drop_last()) * 10 + (s.last() - 48) as nat
    }
}

/// A digit run some number writes to: non-empty, digits only, and no
/// leading zero unless it is "0" itself.
pub open spec fn canonical_digits(s: Seq<u8>) -> bool {
    &&& s.len() > 0
    &&& forall|k: int| 0 <= k < s.len() ==> is_digit(#[trigger] s[k])
    &&& (s.len() == 1 || s[0] != 48)
}

/// What a number writes is canonical and reads back as itself.
pub proof fn lemma_spec_dec_ok(n: nat)
    ensures
        canonical_digits(spec_dec(n)),
        dec_val(spec_dec(n)) == n,
        n >= 1 ==> spec_dec(n)[0] != 48,
        spec_dec(n).len() >= 1,
    decreases n,
{
    if n < 10 {
        let s = spec_dec(n);
        assert(s.drop_last().len() == 0);
        assert(dec_val(s.drop_last()) == 0);
        assert(dec_val(s) == n);
    } else {
        lemma_spec_dec_ok(n / 10);
        lemma_fundamental_div_mod(n as int, 10);
        let s = spec_dec(n);
        assert(s.drop_last() =~= spec_dec(n / 10));
        assert(s.last() == (48 + n % 10) as u8);
        assert(dec_val(s) == dec_val(spec_dec(n / 10)) * 10 + (n % 10));
        assert(dec_val(s) == (n / 10) * 10 + (n % 10));
        assert(n == (n / 10) * 10 + n % 10) by {
            lemma_fundamental_div_mod(n as int, 10);
        }
        assert(s[0] == spec_dec(n / 10)[0]);
    }
}

/// A canonical run with a non-zero lead denotes a positive number.
proof fn lemma_nonzero_lead_positive(s: Seq<u8>)
    requires
        canonical_digits(s),
        s[0] != 48,
    ensures
        dec_val(s) >= 1,
    decreases s.len(),
{
    if s.len() > 1 {
        assert(s.drop_last()[0] == s[0]);
        lemma_nonzero_lead_positive(s.drop_last());
    }
}

/// A canonical digit run is what its own value writes: reading is lossless.
pub proof fn lemma_canonical_unique(s: Seq<u8>)
    requires
        canonical_digits(s),
    ensures
        spec_dec(dec_val(s)) == s,
    decreases s.len(),
{
    if s.len() == 1 {
        assert(is_digit(s[0]));
        assert(s.drop_last().len() == 0);
        assert(dec_val(s.drop_last()) == 0);
        assert(s.last() == s[0]);
        assert(dec_val(s) == (s[0] - 48) as nat);
        assert(spec_dec(dec_val(s)) =~= s);
    } else {
        let front = s.drop_last();
        assert(front[0] == s[0]);
        lemma_nonzero_lead_positive(front);
        lemma_canonical_unique(front);
        let v = dec_val(s);
        let d = (s.last() - 48) as nat;
        assert(v == dec_val(front) * 10 + d);
        assert(v >= 10);
        assert(v / 10 == dec_val(front) && v % 10 == d) by {
            lemma_fundamental_div_mod(v as int, 10);
            assert((dec_val(front) * 10 + d) / 10 == dec_val(front)) by (nonlinear_arith)
                requires
                    d < 10,
            ;
            assert((dec_val(front) * 10 + d) % 10 == d) by (nonlinear_arith)
                requires
                    d < 10,
            ;
        }
        assert(spec_dec(v) =~= s);
    }
}

/// Extending a digit run to the right never shrinks its value.
pub proof fn lemma_dec_val_monotone(s: Seq<u8>, i: int, k: int, j: int)
    requires
        0 <= i <= k <= j <= s.len(),
    ensures
        dec_val(s.subrange(i, j)) >= dec_val(s.subrange(i, k)),
    decreases j - k,
{
    if k < j {
        lemma_dec_val_monotone(s, i, k, j - 1);
        let a = s.subrange(i, j);
        let b = s.subrange(i, j - 1);
        assert(a.drop_last() =~= b);
        assert(dec_val(a) == dec_val(b) * 10 + (a.last() - 48) as nat);
        assert(dec_val(b) * 10 >= dec_val(b));
    }
}

/// First position at or after `i` that does not hold a digit.
pub open spec fn digits_end(s: Seq<u8>, i: int) -> int
    decreases s.len() - i,
{
    if i < 0 || i >= s.len() || !is_digit(s[i]) {
        i
    } else {
        digits_end(s, i + 1)
    }
}

/// `digits_end` is the unique boundary: all digits before, none at it.
pub proof fn lemma_digits_end_is(s: Seq<u8>, i: int, j: int)
    requires
        0 <= i <= j <= s.len(),
        forall|k: int| i <= k < j ==> is_digit(#[trigger] s[k]),
        j == s.len() || !is_digit(s[j]),
    ensures
        digits_end(s, i) == j,
    decreases j - i,
{
    if i < j {
        lemma_digits_end_is(s, i + 1, j);
    }
}

/// A number field read from position `i`: the value and the position after
/// it, or nothing if the digit run there is empty, has a leading zero, or
/// overflows the 32-bit range the cost fields live in.
pub open spec fn spec_parse_num(s: Seq<u8>, i: int) -> Option<(u32, int)> {
    let j = digits_end(s, i);
    let ds = s.subrange(i, j);
    if j > i && canonical_digits(ds) && dec_val(ds) <= u32::MAX {
        Some((dec_val(ds) as u32, j))
    } else {
        None
    }
}

/// Append the decimal digits of `n`.
pub fn push_number(out: &mut Vec<u8>, n: u32)
    ensures
        final(out)@ == old(out)@ + spec_dec(n as nat),
    decreases n,
{
    if n < 10 {
        out.push(48 + n as u8);
        assert(final(out)@ =~= old(out)@ + spec_dec(n as nat));
    } else {
        push_number(out, n / 10);
        out.push(48 + (n % 10) as u8);
        assert(final(out)@ =~= old(out)@ + spec_dec(n as nat));
    }
}

/// Scan the digit run starting at `i`.
fn scan_digits(s: &[u8], i: usize) -> (j: usize)
    requires
        i <= s@.len(),
    ensures
        i <= j <= s@.len(),
        digits_end(s@, i as int) == j as int,
        forall|k: int| i <= k < j ==> is_digit(#[trigger] s@[k]),
        j == s@.len() || !is_digit(s@[j as int]),
{
    let mut j = i;
    while j < s.len() && 48 <= s[j] && s[j] <= 57
        invariant
            i <= j <= s@.len(),
            forall|k: int| i <= k < j ==> is_digit(#[trigger] s@[k]),
        decreases s@.len() - j,
    {
        j = j + 1;
    }
    proof {
        lemma_digits_end_is(s@, i as int, j as int);
    }
    j
}

/// Read the number field at `i`, exactly as `spec_parse_num` has it.
pub fn parse_number(s: &[u8], i: usize) -> (r: Option<(u32, usize)>)
    requires
        i <= s@.len(),
    ensures
        match r {
            Some((v, j)) => spec_parse_num(s@, i as int) == Some((v, j as int)) && i < j <= s@.len(),
            None => spec_parse_num(s@, i as int) is None,
        },
{
    let j = scan_digits(s, i);
    let ghost ds = s@.subrange(i as int, j as int);
    if j == i {
        return None;
    }
    if j - i > 1 && s[i] == 48 {
        assert(!canonical_digits(ds));
        return None;
    }
    assert(canonical_digits(ds));
    let mut acc: u32 = 0;
    let mut k = i;
    while k < j
        invariant
            i <= k <= j <= s@.len(),
            digits_end(s@, i as int) == j as int,
            ds == s@.subrange(i as int, j as int),
            canonical_digits(ds),
            forall|m: int| i <= m < j ==> is_digit(#[trigger] s@[m]),
            acc as nat == dec_val(s@.subrange(i as int, k as int)),
        decreases j - k,
    {
        let d = s[k] - 48;
        proof {
            assert(s@.subrange(i as int, k + 1).drop_last() =~= s@.subrange(i as int, k as int));
        }
        if acc > (u32::MAX - d as u32) / 10 {
            proof {
                let big = s@.subrange(i as int, k + 1);
                assert(is_digit(s@[k as int]));
                assert(big.last() == s@[k as int]);
                assert(dec_val(big) == acc as nat * 10 + d as nat);
                assert(acc as nat * 10 + d as nat > u32::MAX) by (nonlinear_arith)
                    requires
                        acc > (u32::MAX - d as u32) / 10,
                        d < 10,
                        acc <= u32::MAX,
                ;
                lemma_dec_val_monotone(s@, i as int, k + 1, j as int);
                assert(dec_val(s@.subrange(i as int, j as int)) > u32::MAX);
                assert(digits_end(s@, i as int) == j as int);
                assert(!(dec_val(s@.subrange(i as int, digits_end(s@, i as int))) <= u32::MAX));
                assert(spec_parse_num(s@, i as int) is None);
            }
            return None;
        }
        acc = acc * 10 + d as u32;
        k = k + 1;
    }
    assert(ds =~= s@.subrange(i as int, j as int));
    Some((acc, j))
}

} // verus!
