use vstd::prelude::*;
use vstd::utf8::{decode_utf8, encode_utf8_decode_utf8, valid_utf8};
use vstd::string::StringSliceAdditionalSpecFns;

use crate::result::{Error, Result};

verus! {

/// The unsigned number whose big-endian bytes are `s` (most significant first).
pub open spec fn be_value(s: Seq<u8>) -> nat
    decreases s.len(),
{
    if s.len() == 0 {
        0
    } else {
        be_value(s.drop_last()) * 256 + s.last() as nat
    }
}

pub proof fn lemma_be_value_bound(s: Seq<u8>)
    ensures
        be_value(s) < pow256(s.len()),
    decreases s.len(),
{
    if s.len() > 0 {
        lemma_be_value_bound(s.drop_last());
        let p = pow256((s.len() - 1) as nat);
        let b = be_value(s.drop_last());
        assert(b * 256 + s.last() < p * 256) by (nonlinear_arith)
            requires
                b < p,
                s.last() < 256,
        ;
    }
}

/// 256 to the power `n`.
pub open spec fn pow256(n: nat) -> nat
    decreases n,
{
    if n == 0 {
        1
    } else {
        256 * pow256((n - 1) as nat)
    }
}

/// Accumulates up to eight big-endian bytes into an unsigned integer.
pub fn from_be_bytes(bytes: &[u8]) -> (r: u64)
    requires
        bytes@.len() <= 8,
    ensures
        r == be_value(bytes@),
{
    let mut register: u64 = 0;
    let mut i: usize = 0;
    while i < bytes.len()
        invariant
            i <= bytes@.len() <= 8,
            register == be_value(bytes@.subrange(0, i as int)),
        decreases bytes@.len() - i,
    {
        let ghost prefix = bytes@.subrange(0, i as int);
        proof {
            lemma_be_value_bound(prefix);
            assert(pow256(i as nat) <= pow256(7)) by {
                lemma_pow256_mono(i as nat, 7);
            }
            reveal_with_fuel(pow256, 8);
        }
        register = register * 256 + bytes[i] as u64;
        i = i + 1;
        assert(bytes@.subrange(0, i as int).drop_last() == prefix);
    }
    assert(bytes@.subrange(0, i as int) == bytes@);
    register
}

proof fn lemma_pow256_mono(a: nat, b: nat)
    requires
        a <= b,
    ensures
        pow256(a) <= pow256(b),
    decreases b,
{
    if a < b {
        lemma_pow256_mono(a, (b - 1) as nat);
    }
}

/// The characters that a run of UTF-16 code units encodes, or `None` where a
/// surrogate is left unpaired.
pub open spec fn utf16_decode(u: Seq<u16>) -> Option<Seq<char>>
    decreases u.len(),
{
    if u.len() == 0 {
        Some(Seq::empty())
    } else if u[0] < 0xD800 || u[0] > 0xDFFF {
        match utf16_decode(u.drop_first()) {
            Some(rest) => Some(seq![(u[0] as u32) as char] + rest),
            None => None,
        }
    } else if u[0] <= 0xDBFF && u.len() >= 2 && 0xDC00 <= u[1] <= 0xDFFF {
        let c = 0x10000 + (u[0] - 0xD800) * 0x400 + (u[1] - 0xDC00);
        match utf16_decode(u.subrange(2, u.len() as int)) {
            Some(rest) => Some(seq![(c as u32) as char] + rest),
            None => None,
        }
    } else {
        None
    }
}

/// The big-endian 16-bit code units of a byte run (a trailing odd byte is ignored).
pub open spec fn utf16_units(b: Seq<u8>) -> Seq<u16> {
    Seq::new(b.len() / 2, |i: int| (b[2 * i] as int * 256 + b[2 * i + 1] as int) as u16)
}

/// The text held by a UTF-16BE byte run.
pub open spec fn utf16_text(b: Seq<u8>) -> Result<Seq<char>> {
    if b.len() % 2 != 0 {
        Err(Error::TextEncodingFailure)
    } else {
        match utf16_decode(utf16_units(b)) {
            Some(cs) => Ok(cs),
            None => Err(Error::TextEncodingFailure),
        }
    }
}

/// The text held by a UTF-8 byte run.
pub open spec fn utf8_text(b: Seq<u8>) -> Result<Seq<char>> {
    if valid_utf8(b) {
        Ok(decode_utf8(b))
    } else {
        Err(Error::TextEncodingFailure)
    }
}

/// Relies on std::str::from_utf8: it succeeds exactly on valid UTF-8, and the
/// text it returns consists of those very bytes.
#[verifier::external_body]
fn str_from_utf8(buf: &[u8]) -> (r: Option<&str>)
    ensures
        r is Some <==> valid_utf8(buf@),
        r matches Some(s) ==> s.spec_bytes() == buf@,
{
    std::str::from_utf8(buf).ok()
}

/// Relies on String::from_utf16: it fails exactly when a surrogate is left
/// unpaired, and otherwise yields the characters that the units encode.
#[verifier::external_body]
fn string_from_utf16(units: &[u16]) -> (r: Option<String>)
    ensures
        r is Some <==> utf16_decode(units@) is Some,
        r matches Some(s) ==> utf16_decode(units@) == Some(s@),
{
    String::from_utf16(units).ok()
}

/// Reads a byte run as UTF-8 text.
pub fn as_utf8(buf: &[u8]) -> (r: Result<&str>)
    ensures
        match r {
            Ok(s) => utf8_text(buf@) == Ok::<Seq<char>, Error>(s@),
            Err(e) => utf8_text(buf@) == Err::<Seq<char>, Error>(e),
        },
{
    match str_from_utf8(buf) {
        Some(s) => {
            proof {
                encode_utf8_decode_utf8(s@);
            }
            Ok(s)
        },
        None => Err(Error::TextEncodingFailure),
    }
}

/// Reads a byte run as big-endian UTF-16 text.
pub fn as_utf16(buf: &[u8]) -> (r: Result<String>)
    ensures
        match r {
            Ok(s) => utf16_text(buf@) == Ok::<Seq<char>, Error>(s@),
            Err(e) => utf16_text(buf@) == Err::<Seq<char>, Error>(e),
        },
{
    if buf.len() % 2 != 0 {
        return Err(Error::TextEncodingFailure);
    }
    let len: usize = buf.len();
    let n: usize = len / 2;
    let mut units: Vec<u16> = Vec::new();
    let mut i: usize = 0;
    while i < n
        invariant
            len == buf@.len(),
            n == len / 2,
            2 * n == len,
            i <= n,
            units@ == utf16_units(buf@).subrange(0, i as int),
        decreases n - i,
    {
        let j: usize = 2 * i;
        let hi: u16 = buf[j] as u16;
        let lo: u16 = buf[j + 1] as u16;
        let unit: u16 = hi * 256 + lo;
        units.push(unit);
        i = i + 1;
        assert(units@ =~= utf16_units(buf@).subrange(0, i as int));
    }
    assert(units@ =~= utf16_units(buf@));
    match string_from_utf16(units.as_slice()) {
        Some(s) => Ok(s),
        None => Err(Error::TextEncodingFailure),
    }
}

} // verus!
