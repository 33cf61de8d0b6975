//! The lexical layer of bencode: decimal numbers, delimiters and UTF-8.
use crate::error::DeError;
use vstd::prelude::*;
use vstd::utf8::{decode_utf8, encode_utf8, valid_utf8};

verus! {

pub open spec fn is_digit(b: u8) -> bool {
    48 <= b <= 57
}

pub open spec fn all_digits(s: Seq<u8>) -> bool {
    forall|i: int| 0 <= i < s.len() ==> is_digit(#[trigger] s[i])
}

/// The number that a run of decimal digits denotes.
pub open spec fn digits_value(s: Seq<u8>) -> nat
    decreases s.len(),
{
    if s.len() == 0 {
        0
    } else {
        digits_value(s.drop_last()) * 10 + (s.last() - 48) as nat
    }
}

/// The integer that `btoi` reads from `s`, before any bound of the target
/// type: an optional `+` or `-`, then at least one decimal digit.
pub open spec fn signed_digits_value(s: Seq<u8>) -> Option<int> {
    if s.len() == 0 {
        None
    } else if s[0] == 43u8 || s[0] == 45u8 {
        let rest = s.drop_first();
        if rest.len() > 0 && all_digits(rest) {
            if s[0] == 45u8 {
                Some(-digits_value(rest))
            } else {
                Some(digits_value(rest) as int)
            }
        } else {
            None
        }
    } else if all_digits(s) {
        Some(digits_value(s) as int)
    } else {
        None
    }
}

/// The integer that `btoi` reads from `s` when it fits in `u64`.
pub open spec fn read_u64(s: Seq<u8>) -> Option<u64> {
    match signed_digits_value(s) {
        Some(n) => if 0 <= n <= u64::MAX {
            Some(n as u64)
        } else {
            None
        },
        None => None,
    }
}

/// The integer that `btoi` reads from `s` when it fits in `i64`.
pub open spec fn read_i64(s: Seq<u8>) -> Option<i64> {
    match signed_digits_value(s) {
        Some(n) => if i64::MIN <= n <= i64::MAX {
            Some(n as i64)
        } else {
            None
        },
        None => None,
    }
}

/// What `btoi::btoi::<i128>` returns on `s`.
pub open spec fn read_i128(s: Seq<u8>) -> Option<i128> {
    match signed_digits_value(s) {
        Some(n) => if i128::MIN <= n <= i128::MAX {
            Some(n as i128)
        } else {
            None
        },
        None => None,
    }
}

/// The shortest decimal digits of `n`.
pub open spec fn decimal(n: nat) -> Seq<u8>
    decreases n,
{
    if n < 10 {
        seq![(48 + n) as u8]
    } else {
        decimal(n / 10).push((48 + n % 10) as u8)
    }
}

/// The decimal text of `i`, with a leading `-` when it is negative.
pub open spec fn signed_decimal(i: int) -> Seq<u8> {
    if i < 0 {
        seq![45u8] + decimal((-i) as nat)
    } else {
        decimal(i as nat)
    }
}

/// The error of `btoi::btoi`; it is only carried until it is mapped to
/// `DeError::ParseIntegerError`.
#[verifier::external_type_specification]
#[verifier::external_body]
pub struct ExParseIntegerError(btoi::ParseIntegerError);

/// Relies on `btoi::btoi` for `i128`: an optional `+` or `-`, then at least
/// one decimal digit, with the value checked against the bounds of `i128`.
#[verifier::external_body]
fn btoi_i128(s: &[u8]) -> (r: Result<i128, btoi::ParseIntegerError>)
    ensures
        r is Ok <==> read_i128(s@) is Some,
        r is Ok ==> r->Ok_0 == read_i128(s@)->0,
{
    btoi::btoi::<i128>(s)
}

/// Reads an unsigned integer in the form that `btoi` accepts.
pub fn parse_u64(s: &[u8]) -> (r: Result<u64, DeError>)
    ensures
        match read_u64(s@) {
            Some(n) => r == Ok::<u64, DeError>(n),
            None => r == Err::<u64, DeError>(DeError::ParseIntegerError),
        },
{
    match btoi_i128(s) {
        Ok(n) => {
            if 0 <= n && n <= u64::MAX as i128 {
                Ok(n as u64)
            } else {
                Err(DeError::ParseIntegerError)
            }
        },
        Err(_) => Err(DeError::ParseIntegerError),
    }
}

/// Reads a signed integer in the form that `btoi` accepts.
pub fn parse_i64(s: &[u8]) -> (r: Result<i64, DeError>)
    ensures
        match read_i64(s@) {
            Some(n) => r == Ok::<i64, DeError>(n),
            None => r == Err::<i64, DeError>(DeError::ParseIntegerError),
        },
{
    match btoi_i128(s) {
        Ok(n) => {
            if i64::MIN as i128 <= n && n <= i64::MAX as i128 {
                Ok(n as i64)
            } else {
                Err(DeError::ParseIntegerError)
            }
        },
        Err(_) => Err(DeError::ParseIntegerError),
    }
}

/// Relies on `itoa::Buffer::format` for `i128`: the shortest decimal
/// digits, after a `-` when the number is negative.
#[verifier::external_body]
fn itoa_i128(n: i128) -> (r: Vec<u8>)
    ensures
        r@ == signed_decimal(n as int),
{
    itoa::Buffer::new().format(n).as_bytes().to_vec()
}

/// Appends the decimal digits of `n` to `out`.
pub fn write_u64(out: &mut Vec<u8>, n: u64)
    ensures
        final(out)@ == old(out)@ + decimal(n as nat),
{
    let mut digits = itoa_i128(n as i128);
    out.append(&mut digits);
}

/// Appends the decimal text of `n` to `out`.
pub fn write_i64(out: &mut Vec<u8>, n: i64)
    ensures
        final(out)@ == old(out)@ + signed_decimal(n as int),
{
    let mut digits = itoa_i128(n as i128);
    out.append(&mut digits);
}

/// Relies on `std::str::from_utf8`: the bytes are read as text exactly when
/// they are valid UTF-8.
#[verifier::external_body]
pub(crate) fn utf8_text(b: &[u8]) -> (r: Option<&str>)
    ensures
        r is Some <==> valid_utf8(b@),
        r is Some ==> r->0@ == decode_utf8(b@),
{
    std::str::from_utf8(b).ok()
}

/// Relies on `char::encode_utf8`: the UTF-8 bytes of one character.
#[verifier::external_body]
pub(crate) fn char_utf8(c: char) -> (r: Vec<u8>)
    ensures
        r@ == encode_utf8(seq![c]),
{
    let mut buf = [0u8; 4];
    c.encode_utf8(&mut buf).as_bytes().to_vec()
}

/// The index of the first `b` in `s` at or after `from`.
pub open spec fn find_from(s: Seq<u8>, from: int, b: u8) -> Option<int>
    decreases s.len() - from,
{
    if from < 0 || from >= s.len() {
        None
    } else if s[from] == b {
        Some(from)
    } else {
        find_from(s, from + 1, b)
    }
}

pub proof fn lemma_find_from_found(s: Seq<u8>, from: int, b: u8)
    ensures
        match find_from(s, from, b) {
            Some(k) => 0 <= from <= k < s.len() && s[k] == b && forall|i: int|
                from <= i < k ==> s[i] != b,
            None => forall|i: int| 0 <= from <= i < s.len() ==> s[i] != b,
        },
    decreases s.len() - from,
{
    if 0 <= from < s.len() && s[from] != b {
        lemma_find_from_found(s, from + 1, b);
    }
}

pub proof fn lemma_find_from(s: Seq<u8>, from: int, b: u8, k: int)
    requires
        0 <= from <= k <= s.len(),
        forall|i: int| from <= i < k ==> s[i] != b,
    ensures
        k < s.len() && s[k] == b ==> find_from(s, from, b) == Some(k),
        k == s.len() ==> find_from(s, from, b) is None,
    decreases k - from,
{
    if from < k {
        lemma_find_from(s, from + 1, b, k);
    }
}

/// Takes the bytes of `bytes` before the first `end_byte`.
///
/// Fails with `UnexpectedEof` when `end_byte` does not occur.
pub fn slice_while(bytes: &[u8], end_byte: u8) -> (r: Result<&[u8], DeError>)
    ensures
        match find_from(bytes@, 0, end_byte) {
            Some(k) => r is Ok && r->Ok_0@ == bytes@.subrange(0, k),
            None => r == Err::<&[u8], DeError>(DeError::UnexpectedEof),
        },
{
    let mut i: usize = 0;
    while i < bytes.len()
        invariant
            0 <= i <= bytes@.len(),
            forall|j: int| 0 <= j < i ==> bytes@[j] != end_byte,
        decreases bytes@.len() - i,
    {
        if bytes[i] == end_byte {
            proof {
                lemma_find_from(bytes@, 0, end_byte, i as int);
            }
            return Ok(&bytes[0..i]);
        }
        i = i + 1;
    }
    proof {
        lemma_find_from(bytes@, 0, end_byte, i as int);
    }
    Err(DeError::UnexpectedEof)
}

} // verus!
