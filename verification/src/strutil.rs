//! Small string utilities: building ASCII strings from bytes, decimal
//! rendering of integers, lowercasing, and lexicographic byte comparison.

use vstd::prelude::*;

verus! {

/// Interpretation of a byte sequence as characters, valid for ASCII bytes.
pub open spec fn ascii_chars(bytes: Seq<u8>) -> Seq<char> {
    bytes.map_values(|b: u8| b as char)
}

/// Relies on std's `String::from_utf8`: ASCII bytes are valid UTF-8 and decode
/// to the characters with the same code points.
#[verifier::external_body]
pub(crate) fn ascii_bytes_to_string(bytes: Vec<u8>) -> (r: String)
    requires
        forall|i: int| 0 <= i < bytes@.len() ==> bytes@[i] < 128,
    ensures
        r@ == ascii_chars(bytes@),
{
    match String::from_utf8(bytes) {
        Ok(s) => s,
        Err(_) => String::new(),
    }
}

/// ASCII lowercasing of a single character: 'A'..'Z' map to 'a'..'z',
/// every other character is unchanged.
pub open spec fn spec_lower_char(c: char) -> char {
    if 'A' <= c && c <= 'Z' {
        ((c as u32) + 32) as char
    } else {
        c
    }
}

/// Relies on std's `str::to_ascii_lowercase`: ASCII upper-case letters are
/// mapped to lower case, all other characters are returned unchanged.
#[verifier::external_body]
pub(crate) fn to_lowercase_ascii(s: &str) -> (r: String)
    ensures
        r@ == s@.map_values(|c: char| spec_lower_char(c)),
{
    s.to_ascii_lowercase()
}

/// The decimal digits of `n`, most significant first.
pub open spec fn spec_decimal(n: int) -> Seq<u8>
    decreases n,
{
    if n <= 0 {
        seq![]
    } else {
        spec_decimal(n / 10).push((48 + n % 10) as u8)
    }
}

/// The decimal rendering of a non-negative number: its digits, or "0".
pub open spec fn spec_decimal_str(n: int) -> Seq<char> {
    if n == 0 {
        seq!['0']
    } else {
        ascii_chars(spec_decimal(n))
    }
}

proof fn lemma_decimal_digits(n: int)
    requires
        n >= 0,
    ensures
        forall|i: int| 0 <= i < spec_decimal(n).len() ==> 48 <= #[trigger] spec_decimal(n)[i] < 58,
    decreases n,
{
    if n > 0 {
        lemma_decimal_digits(n / 10);
        assert forall|i: int| 0 <= i < spec_decimal(n).len() implies 48 <= #[trigger] spec_decimal(
            n,
        )[i] < 58 by {
            if i < spec_decimal(n / 10).len() {
                assert(spec_decimal(n)[i] == spec_decimal(n / 10)[i]);
            } else {
                assert(spec_decimal(n)[i] == (48 + n % 10) as u8);
            }
        }
    }
}

/// The decimal digits of `n` as bytes, most significant first ("0" for zero).
pub fn decimal_bytes(n: u64) -> (r: Vec<u8>)
    ensures
        ascii_chars(r@) == spec_decimal_str(n as int),
        forall|i: int| 0 <= i < r@.len() ==> 48 <= #[trigger] r@[i] < 58,
{
    if n == 0 {
        let mut v: Vec<u8> = Vec::new();
        v.push(48);
        assert(ascii_chars(v@) =~= spec_decimal_str(0));
        return v;
    }
    let mut rev: Vec<u8> = Vec::new();
    let mut m: u64 = n;
    while m > 0
        invariant
            spec_decimal(n as int) =~= spec_decimal(m as int) + rev@.reverse(),
            forall|i: int| 0 <= i < rev@.len() ==> 48 <= #[trigger] rev@[i] < 58,
        decreases m,
    {
        let ghost prev: u64 = m;
        let d: u8 = (m % 10) as u8;
        rev.push(48 + d);
        m = m / 10;
        proof {
            assert(spec_decimal(prev as int) =~= spec_decimal(prev as int / 10).push(
                (48 + prev as int % 10) as u8,
            ));
            assert(spec_decimal(n as int) =~= spec_decimal(m as int) + rev@.reverse());
        }
    }
    let mut out: Vec<u8> = Vec::new();
    let mut i: usize = rev.len();
    while i > 0
        invariant
            i <= rev@.len(),
            out@ =~= rev@.reverse().take(rev@.len() - i),
            forall|k: int| 0 <= k < rev@.len() ==> 48 <= #[trigger] rev@[k] < 58,
            forall|k: int| 0 <= k < out@.len() ==> 48 <= #[trigger] out@[k] < 58,
        decreases i,
    {
        i = i - 1;
        out.push(rev[i]);
        proof {
            assert(out@ =~= rev@.reverse().take(rev@.len() - i));
        }
    }
    proof {
        assert(out@ =~= rev@.reverse());
        assert(spec_decimal(n as int) =~= out@);
        assert(spec_decimal(n as int).len() > 0);
    }
    out
}

/// The decimal rendering of `n` as a string.
pub fn u64_to_string(n: u64) -> (r: String)
    ensures
        r@ == spec_decimal_str(n as int),
{
    let bytes = decimal_bytes(n);
    ascii_bytes_to_string(bytes)
}

} // verus!
