use vstd::prelude::*;

use crate::reference_table::{be_run, offsets_of, read_be_run, ReferenceTable};
use crate::result::{Error, Malformed, Result};
use crate::trailer::{trailer_of, Trailer};
use crate::util::{as_utf16, as_utf8, be_value, from_be_bytes, utf16_text, utf8_text};
use crate::value::{lemma_pair_views_push, lemma_views_push, pair_views, views, BPList, Plist};

verus! {

/// The object type that the high nibble of a marker byte names.
#[derive(Debug, Clone, Copy, PartialEq, Eq, Structural)]
pub enum Tag {
    Singleton,
    Int,
    Real,
    Date,
    Data,
    AsciiStr,
    Utf16Str,
    Uid,
    Array,
    UnorderedSet,
    Dict,
    Unknown,
}

/// The object type of a marker byte.
pub open spec fn tag_of(marker: u8) -> Tag {
    let high = marker / 16;
    if high == 0 {
        Tag::Singleton
    } else if high == 1 {
        Tag::Int
    } else if high == 2 {
        Tag::Real
    } else if high == 3 {
        Tag::Date
    } else if high == 4 {
        Tag::Data
    } else if high == 5 {
        Tag::AsciiStr
    } else if high == 6 {
        Tag::Utf16Str
    } else if high == 8 {
        Tag::Uid
    } else if high == 10 {
        Tag::Array
    } else if high == 12 {
        Tag::UnorderedSet
    } else if high == 13 {
        Tag::Dict
    } else {
        Tag::Unknown
    }
}

/// The low nibble of a marker byte.
pub open spec fn param_of(marker: u8) -> u8 {
    marker % 16
}

/// The low nibble that announces a count held in a following integer object.
pub const ESCAPE: u8 = 15;

/// 2 to the power `n`.
pub open spec fn pow2(n: nat) -> nat
    decreases n,
{
    if n == 0 {
        1
    } else {
        2 * pow2((n - 1) as nat)
    }
}

/// The low 64 bits of the big-endian number in `b`.
pub open spec fn low_word(b: Seq<u8>) -> u64 {
    if b.len() <= 8 {
        be_value(b) as u64
    } else {
        be_value(b.subrange(b.len() - 8, b.len() as int)) as u64
    }
}

/// The value of a singleton marker's low nibble.
pub open spec fn singleton_of(p: u8) -> Option<Plist> {
    if p == 0 {
        Some(Plist::Null)
    } else if p == 8 {
        Some(Plist::Bool(false))
    } else if p == 9 {
        Some(Plist::Bool(true))
    } else if p == 15 {
        Some(Plist::Filler)
    } else {
        None
    }
}

/// The object encoded at `pos` in `d`, with the position just past its
/// encoding. `rw` is the reference width, `offs` the offset table, and
/// `budget` the number of reference hops still allowed below this object; a
/// tree of `n` objects never needs more than `n - 1`.
pub open spec fn decode_at(d: Seq<u8>, rw: nat, offs: Seq<u64>, pos: int, budget: nat) -> Result<
    (Plist, int),
>
    decreases budget, 1int, d.len() - pos, 1int,
{
    if pos < 0 || pos >= d.len() {
        Err(Error::UnexpectedEndOfInput)
    } else {
        let m = d[pos];
        let p = param_of(m);
        let body = pos + 1;
        let tag = tag_of(m);
        if tag == Tag::Singleton {
            match singleton_of(p) {
                Some(v) => Ok((v, body)),
                None => Err(Error::MalformedFormat(Malformed::UnknownSingleton)),
            }
        } else if tag == Tag::Int || tag == Tag::Real {
            let w = pow2(p as nat);
            if body + w > d.len() {
                Err(Error::UnexpectedEndOfInput)
            } else {
                let bits = low_word(d.subrange(body, body + w));
                if tag == Tag::Int {
                    Ok((Plist::Int(bits as i64), body + w))
                } else {
                    Ok((Plist::Real(bits), body + w))
                }
            }
        } else if tag == Tag::Date || tag == Tag::UnorderedSet {
            Err(Error::NotImplemented)
        } else if tag == Tag::Uid {
            let w = p + 1;
            if body + w > d.len() {
                Err(Error::UnexpectedEndOfInput)
            } else {
                Ok((Plist::Uid(d.subrange(body, body + w)), body + w))
            }
        } else if tag == Tag::Unknown {
            Err(Error::MalformedFormat(Malformed::UnknownMarker))
        } else {
            match count_at(d, rw, offs, body, p, budget) {
                Err(e) => Err(e),
                Ok((n, e)) => decode_body(d, rw, offs, tag, n, e, budget),
            }
        }
    }
}

/// The count of a data, string, array or dictionary object whose marker
/// has low nibble `p` and is followed by position `body`, with the position
/// after the count.
pub open spec fn count_at(d: Seq<u8>, rw: nat, offs: Seq<u64>, body: int, p: u8, budget: nat) -> Result<
    (nat, int),
>
    decreases budget, 1int, d.len() - body, 2int,
{
    if p != ESCAPE {
        Ok((p as nat, body))
    } else {
        match decode_at(d, rw, offs, body, budget) {
            Err(e) => Err(e),
            Ok((Plist::Int(n), e)) => if n < 0 {
                Err(Error::MalformedFormat(Malformed::NegativeCount))
            } else {
                Ok((n as nat, e))
            },
            Ok(_) => Err(Error::MalformedFormat(Malformed::CountNotInt)),
        }
    }
}

/// The object of type `tag` with count `n` whose content starts at `e`.
pub open spec fn decode_body(
    d: Seq<u8>,
    rw: nat,
    offs: Seq<u64>,
    tag: Tag,
    n: nat,
    e: int,
    budget: nat,
) -> Result<(Plist, int)>
    decreases budget, 1int, 0int, 0int,
{
    if tag == Tag::Data || tag == Tag::AsciiStr {
        if e + n > d.len() {
            Err(Error::UnexpectedEndOfInput)
        } else {
            let bytes = d.subrange(e, e + n);
            if tag == Tag::Data {
                Ok((Plist::Data(bytes), e + n))
            } else {
                match utf8_text(bytes) {
                    Ok(cs) => Ok((Plist::Str(cs), e + n)),
                    Err(x) => Err(x),
                }
            }
        }
    } else if tag == Tag::Utf16Str {
        if e + 2 * n > d.len() {
            Err(Error::UnexpectedEndOfInput)
        } else {
            match utf16_text(d.subrange(e, e + 2 * n)) {
                Ok(cs) => Ok((Plist::Str(cs), e + 2 * n)),
                Err(x) => Err(x),
            }
        }
    } else if tag == Tag::Array {
        if e + n * rw > d.len() {
            Err(Error::UnexpectedEndOfInput)
        } else {
            match decode_list(d, rw, offs, be_run(d, e, rw, n), budget) {
                Ok(vs) => Ok((Plist::Array(vs), e + n * rw)),
                Err(x) => Err(x),
            }
        }
    } else {
        if e + 2 * n * rw > d.len() {
            Err(Error::UnexpectedEndOfInput)
        } else {
            let keys = be_run(d, e, rw, n);
            let vals = be_run(d, e + n * rw, rw, n);
            match decode_pairs(d, rw, offs, keys, vals, budget) {
                Ok(ps) => Ok((Plist::Dict(ps), e + 2 * n * rw)),
                Err(x) => Err(x),
            }
        }
    }
}

/// The object that reference `r` names, decoded with one hop fewer.
pub open spec fn decode_ref(d: Seq<u8>, rw: nat, offs: Seq<u64>, r: u64, budget: nat) -> Result<Plist>
    decreases budget, 0int, 0int, 0int,
{
    if r >= offs.len() {
        Err(Error::NotFound)
    } else if budget == 0 {
        Err(Error::MalformedFormat(Malformed::Cycle))
    } else {
        match decode_at(d, rw, offs, offs[r as int] as int, (budget - 1) as nat) {
            Ok((v, _)) => Ok(v),
            Err(x) => Err(x),
        }
    }
}

/// The objects that the references name, in order; the first failure wins.
pub open spec fn decode_list(d: Seq<u8>, rw: nat, offs: Seq<u64>, refs: Seq<u64>, budget: nat) -> Result<
    Seq<Plist>,
>
    decreases budget, 0int, refs.len() + 1, 0int,
{
    if refs.len() == 0 {
        Ok(Seq::empty())
    } else {
        match decode_list(d, rw, offs, refs.drop_last(), budget) {
            Err(x) => Err(x),
            Ok(vs) => match decode_ref(d, rw, offs, refs.last(), budget) {
                Ok(v) => Ok(vs.push(v)),
                Err(x) => Err(x),
            },
        }
    }
}

/// The key/value pairs that the two reference runs name, pair by pair, key
/// before value; the first failure wins.
pub open spec fn decode_pairs(
    d: Seq<u8>,
    rw: nat,
    offs: Seq<u64>,
    keys: Seq<u64>,
    vals: Seq<u64>,
    budget: nat,
) -> Result<Seq<(Plist, Plist)>>
    decreases budget, 0int, keys.len() + 1, 0int,
{
    if keys.len() == 0 {
        Ok(Seq::empty())
    } else {
        match decode_pairs(d, rw, offs, keys.drop_last(), vals.drop_last(), budget) {
            Err(x) => Err(x),
            Ok(ps) => match decode_ref(d, rw, offs, keys.last(), budget) {
                Err(x) => Err(x),
                Ok(k) => match decode_ref(d, rw, offs, vals[keys.len() - 1], budget) {
                    Err(x) => Err(x),
                    Ok(v) => Ok(ps.push((k, v))),
                },
            },
        }
    }
}

/// An executable decoding result stands for the mathematical one.
pub open spec fn agrees(r: Result<(BPList, usize)>, s: Result<(Plist, int)>) -> bool {
    match r {
        Ok((v, e)) => s == Ok::<(Plist, int), Error>((v@, e as int)),
        Err(x) => s == Err::<(Plist, int), Error>(x),
    }
}

impl Tag {
    /// The object type of a marker byte.
    pub fn of_marker(marker: u8) -> (t: Tag)
        ensures
            t == tag_of(marker),
    {
        let high = marker / 16;
        if high == 0 {
            Tag::Singleton
        } else if high == 1 {
            Tag::Int
        } else if high == 2 {
            Tag::Real
        } else if high == 3 {
            Tag::Date
        } else if high == 4 {
            Tag::Data
        } else if high == 5 {
            Tag::AsciiStr
        } else if high == 6 {
            Tag::Utf16Str
        } else if high == 8 {
            Tag::Uid
        } else if high == 10 {
            Tag::Array
        } else if high == 12 {
            Tag::UnorderedSet
        } else if high == 13 {
            Tag::Dict
        } else {
            Tag::Unknown
        }
    }
}

proof fn lemma_pow2_mono(a: nat, b: nat)
    requires
        a <= b,
    ensures
        pow2(a) <= pow2(b),
    decreases b,
{
    if a < b {
        lemma_pow2_mono(a, (b - 1) as nat);
    }
}

/// The byte width `2^p` of an integer or real whose marker has low nibble `p`.
fn width_of(p: u8) -> (w: usize)
    requires
        p < 16,
    ensures
        w == pow2(p as nat),
        w <= 32768,
{
    let mut w: usize = 1;
    let mut i: u8 = 0;
    while i < p
        invariant
            i <= p < 16,
            w == pow2(i as nat),
        decreases p - i,
    {
        proof {
            lemma_pow2_mono(i as nat + 1, 15);
            reveal_with_fuel(pow2, 16);
        }
        w = w * 2;
        i = i + 1;
    }
    proof {
        lemma_pow2_mono(p as nat, 15);
        reveal_with_fuel(pow2, 16);
    }
    w
}

/// Decodes a singleton from its marker's low nibble.
fn load_single(p: u8) -> (r: Result<BPList>)
    ensures
        match r {
            Ok(v) => singleton_of(p) == Some(v@),
            Err(e) => singleton_of(p) is None && e == Error::MalformedFormat(Malformed::UnknownSingleton),
        },
{
    if p == 0 {
        Ok(BPList::Null)
    } else if p == 8 {
        Ok(BPList::Bool(false))
    } else if p == 9 {
        Ok(BPList::Bool(true))
    } else if p == 15 {
        Ok(BPList::Filler)
    } else {
        Err(Error::MalformedFormat(Malformed::UnknownSingleton))
    }
}

/// The low 64 bits of the `w` big-endian bytes at `start`.
fn load_word(data: &[u8], start: usize, w: usize) -> (r: u64)
    requires
        start + w <= data@.len(),
    ensures
        r == low_word(data@.subrange(start as int, start + w)),
{
    let dl: usize = data.len();
    let ghost b = data@.subrange(start as int, start + w);
    if w <= 8 {
        from_be_bytes(&data[start..start + w])
    } else {
        assert(b.subrange(b.len() - 8, b.len() as int) == data@.subrange(start + w - 8, start + w));
        from_be_bytes(&data[start + w - 8..start + w])
    }
}

/// Decodes the object at `pos`, returning it with the position past its
/// encoding.
fn load_item(data: &[u8], rw: usize, table: &ReferenceTable, pos: usize, budget: usize) -> (r: Result<
    (BPList, usize),
>)
    requires
        1 <= rw <= 8,
    ensures
        agrees(r, decode_at(data@, rw as nat, table@, pos as int, budget as nat)),
    decreases budget, 1int, data@.len() - pos, 1int,
{
    if pos >= data.len() {
        return Err(Error::UnexpectedEndOfInput);
    }
    let m = data[pos];
    let p = m % 16;
    let body = pos + 1;
    let tag = Tag::of_marker(m);
    match tag {
        Tag::Singleton => match load_single(p) {
            Ok(v) => Ok((v, body)),
            Err(e) => Err(e),
        },
        Tag::Int | Tag::Real => {
            let w = width_of(p);
            if w > data.len() - body {
                return Err(Error::UnexpectedEndOfInput);
            }
            let bits = load_word(data, body, w);
            if tag == Tag::Int {
                Ok((BPList::Int(bits as i64), body + w))
            } else {
                Ok((BPList::Real(bits), body + w))
            }
        },
        Tag::Date | Tag::UnorderedSet => Err(Error::NotImplemented),
        Tag::Uid => {
            let w = p as usize + 1;
            if w > data.len() - body {
                return Err(Error::UnexpectedEndOfInput);
            }
            let bytes = vstd::slice::slice_to_vec(&data[body..body + w]);
            Ok((BPList::UID(bytes), body + w))
        },
        Tag::Unknown => Err(Error::MalformedFormat(Malformed::UnknownMarker)),
        _ => match load_count(data, rw, table, body, p, budget) {
            Err(e) => Err(e),
            Ok((n, e)) => load_body(data, rw, table, tag, n, e, budget),
        },
    }
}

/// Reads the count of a data, string, array or dictionary object.
fn load_count(data: &[u8], rw: usize, table: &ReferenceTable, body: usize, p: u8, budget: usize) -> (r:
    Result<(u64, usize)>)
    requires
        1 <= rw <= 8,
        body <= data@.len(),
    ensures
        match r {
            Ok((n, e)) => count_at(data@, rw as nat, table@, body as int, p, budget as nat) == Ok::<
                (nat, int),
                Error,
            >((n as nat, e as int)) && e <= data@.len(),
            Err(x) => count_at(data@, rw as nat, table@, body as int, p, budget as nat) == Err::<
                (nat, int),
                Error,
            >(x),
        },
    decreases budget, 1int, data@.len() - body, 2int,
{
    if p != ESCAPE {
        return Ok((p as u64, body));
    }
    match load_item(data, rw, table, body, budget) {
        Err(e) => Err(e),
        Ok((BPList::Int(n), e)) => {
            if n < 0 {
                Err(Error::MalformedFormat(Malformed::NegativeCount))
            } else {
                proof {
                    lemma_end_in_bounds(data@, rw as nat, table@, body as int, budget as nat);
                }
                Ok((n as u64, e))
            }
        },
        Ok(_) => Err(Error::MalformedFormat(Malformed::CountNotInt)),
    }
}

/// A successful decode ends inside the input.
proof fn lemma_end_in_bounds(d: Seq<u8>, rw: nat, offs: Seq<u64>, pos: int, budget: nat)
    ensures
        decode_at(d, rw, offs, pos, budget) matches Ok((_, e)) ==> e <= d.len(),
{
    let r = decode_at(d, rw, offs, pos, budget);
    if 0 <= pos < d.len() {
        let m = d[pos];
        let tag = tag_of(m);
        if tag != Tag::Singleton && tag != Tag::Int && tag != Tag::Real && tag != Tag::Date
            && tag != Tag::UnorderedSet && tag != Tag::Uid && tag != Tag::Unknown {
            match count_at(d, rw, offs, pos + 1, param_of(m), budget) {
                Ok((n, e)) => {
                    if tag == Tag::Dict {
                        assert(n * rw <= 2 * n * rw) by (nonlinear_arith);
                    }
                },
                Err(_) => {},
            }
        }
    }
}

/// Decodes the content of a data, string, array or dictionary object of
/// count `n` that starts at `e`.
fn load_body(
    data: &[u8],
    rw: usize,
    table: &ReferenceTable,
    tag: Tag,
    n: u64,
    e: usize,
    budget: usize,
) -> (r: Result<(BPList, usize)>)
    requires
        1 <= rw <= 8,
        e <= data@.len(),
        tag == Tag::Data || tag == Tag::AsciiStr || tag == Tag::Utf16Str || tag == Tag::Array
            || tag == Tag::Dict,
    ensures
        agrees(r, decode_body(data@, rw as nat, table@, tag, n as nat, e as int, budget as nat)),
    decreases budget, 1int, 0int, 0int,
{
    let room: u64 = (data.len() - e) as u64;
    if tag == Tag::Data || tag == Tag::AsciiStr {
        if n > room {
            return Err(Error::UnexpectedEndOfInput);
        }
        let end: usize = e + n as usize;
        if tag == Tag::Data {
            let bytes = vstd::slice::slice_to_vec(&data[e..end]);
            Ok((BPList::Data(bytes), end))
        } else {
            match as_utf8(&data[e..end]) {
                Ok(s) => Ok((BPList::Str(s.to_owned()), end)),
                Err(x) => Err(x),
            }
        }
    } else if tag == Tag::Utf16Str {
        if n > room / 2 {
            return Err(Error::UnexpectedEndOfInput);
        }
        let end: usize = e + 2 * n as usize;
        match as_utf16(&data[e..end]) {
            Ok(s) => Ok((BPList::Str(s), end)),
            Err(x) => Err(x),
        }
    } else if tag == Tag::Array {
        if n > room / rw as u64 {
            proof {
                assert(n * rw > room) by (nonlinear_arith)
                    requires
                        n > (room as int) / (rw as int),
                        rw >= 1,
                ;
            }
            return Err(Error::UnexpectedEndOfInput);
        }
        proof {
            assert(n * rw <= room) by (nonlinear_arith)
                requires
                    n <= (room as int) / (rw as int),
                    rw >= 1,
            ;
        }
        let refs = read_be_run(data, e, rw, n as usize);
        match load_list(data, rw, table, &refs, budget) {
            Ok(items) => {
                let ghost iv = items@;
                let res = BPList::Array(items);
                Ok((res, e + n as usize * rw))
            },
            Err(x) => Err(x),
        }
    } else {
        let twice: u64 = 2 * rw as u64;
        if n > room / twice {
            proof {
                assert(2 * n * rw > room) by (nonlinear_arith)
                    requires
                        n > (room as int) / (twice as int),
                        twice == 2 * rw,
                        rw >= 1,
                ;
            }
            return Err(Error::UnexpectedEndOfInput);
        }
        proof {
            assert(2 * n * rw <= room && n * rw <= room && 2 * n * rw == n * rw + n * rw)
                by (nonlinear_arith)
                requires
                    n <= (room as int) / (twice as int),
                    twice == 2 * rw,
                    rw >= 1,
            ;
        }
        let half: usize = n as usize * rw;
        let keys = read_be_run(data, e, rw, n as usize);
        let vals = read_be_run(data, e + half, rw, n as usize);
        match load_pairs(data, rw, table, &keys, &vals, budget) {
            Ok(pairs) => {
                let ghost pv = pairs@;
                let res = BPList::Dict(pairs);
                Ok((res, e + 2 * half))
            },
            Err(x) => Err(x),
        }
    }
}

/// Decodes the object that reference `r` names, with one hop fewer.
fn load_ref(data: &[u8], rw: usize, table: &ReferenceTable, r: u64, budget: usize) -> (res: Result<
    BPList,
>)
    requires
        1 <= rw <= 8,
    ensures
        match res {
            Ok(v) => decode_ref(data@, rw as nat, table@, r, budget as nat) == Ok::<Plist, Error>(v@),
            Err(x) => decode_ref(data@, rw as nat, table@, r, budget as nat) == Err::<Plist, Error>(x),
        },
    decreases budget, 0int, 0int, 0int,
{
    match table.get(&r) {
        None => Err(Error::NotFound),
        Some(off) => {
            if budget == 0 {
                return Err(Error::MalformedFormat(Malformed::Cycle));
            }
            if off >= data.len() as u64 {
                return Err(Error::UnexpectedEndOfInput);
            }
            match load_item(data, rw, table, off as usize, budget - 1) {
                Ok((v, _)) => Ok(v),
                Err(x) => Err(x),
            }
        },
    }
}

/// Once a prefix of the references fails, every longer prefix fails alike.
proof fn lemma_list_error_persists(
    d: Seq<u8>,
    rw: nat,
    offs: Seq<u64>,
    refs: Seq<u64>,
    budget: nat,
    i: int,
)
    requires
        0 <= i <= refs.len(),
        decode_list(d, rw, offs, refs.take(i), budget) is Err,
    ensures
        decode_list(d, rw, offs, refs, budget) == decode_list(d, rw, offs, refs.take(i), budget),
    decreases refs.len() - i,
{
    if i < refs.len() {
        assert(refs.take(i + 1).drop_last() =~= refs.take(i));
        lemma_list_error_persists(d, rw, offs, refs, budget, i + 1);
    } else {
        assert(refs.take(i) =~= refs);
    }
}

/// Decodes the objects that a run of references names, in order.
fn load_list(data: &[u8], rw: usize, table: &ReferenceTable, refs: &Vec<u64>, budget: usize) -> (r:
    Result<Vec<BPList>>)
    requires
        1 <= rw <= 8,
    ensures
        match r {
            Ok(items) => decode_list(data@, rw as nat, table@, refs@, budget as nat) == Ok::<
                Seq<Plist>,
                Error,
            >(views(items@)),
            Err(x) => decode_list(data@, rw as nat, table@, refs@, budget as nat) == Err::<
                Seq<Plist>,
                Error,
            >(x),
        },
    decreases budget, 0int, refs@.len() + 1, 0int,
{
    let mut items: Vec<BPList> = Vec::new();
    let mut i: usize = 0;
    assert(refs@.take(0) =~= Seq::<u64>::empty());
    assert(views(items@) =~= Seq::<Plist>::empty());
    while i < refs.len()
        invariant
            1 <= rw <= 8,
            i <= refs@.len(),
            decode_list(data@, rw as nat, table@, refs@.take(i as int), budget as nat) == Ok::<
                Seq<Plist>,
                Error,
            >(views(items@)),
        decreases refs@.len() - i,
    {
        assert(refs@.take(i + 1).drop_last() =~= refs@.take(i as int));
        match load_ref(data, rw, table, refs[i], budget) {
            Ok(v) => {
                let ghost prev = items@;
                let ghost model = v@;
                items.push(v);
                i = i + 1;
                proof {
                    lemma_views_push(prev, items@.last());
                }
            },
            Err(x) => {
                proof {
                    lemma_list_error_persists(data@, rw as nat, table@, refs@, budget as nat, i + 1);
                }
                return Err(x);
            },
        }
    }
    assert(refs@.take(i as int) =~= refs@);
    Ok(items)
}

/// Once a prefix of the pairs fails, every longer prefix fails alike.
proof fn lemma_pairs_error_persists(
    d: Seq<u8>,
    rw: nat,
    offs: Seq<u64>,
    keys: Seq<u64>,
    vals: Seq<u64>,
    budget: nat,
    i: int,
)
    requires
        0 <= i <= keys.len(),
        keys.len() == vals.len(),
        decode_pairs(d, rw, offs, keys.take(i), vals.take(i), budget) is Err,
    ensures
        decode_pairs(d, rw, offs, keys, vals, budget) == decode_pairs(
            d,
            rw,
            offs,
            keys.take(i),
            vals.take(i),
            budget,
        ),
    decreases keys.len() - i,
{
    if i < keys.len() {
        assert(keys.take(i + 1).drop_last() =~= keys.take(i));
        assert(vals.take(i + 1).drop_last() =~= vals.take(i));
        lemma_pairs_error_persists(d, rw, offs, keys, vals, budget, i + 1);
    } else {
        assert(keys.take(i) =~= keys);
        assert(vals.take(i) =~= vals);
    }
}

/// Decodes the pairs that a run of key references and a run of value
/// references name, pair by pair, key before value.
fn load_pairs(
    data: &[u8],
    rw: usize,
    table: &ReferenceTable,
    keys: &Vec<u64>,
    vals: &Vec<u64>,
    budget: usize,
) -> (r: Result<Vec<(BPList, BPList)>>)
    requires
        1 <= rw <= 8,
        keys@.len() == vals@.len(),
    ensures
        match r {
            Ok(pairs) => decode_pairs(data@, rw as nat, table@, keys@, vals@, budget as nat) == Ok::<
                Seq<(Plist, Plist)>,
                Error,
            >(pair_views(pairs@)),
            Err(x) => decode_pairs(data@, rw as nat, table@, keys@, vals@, budget as nat) == Err::<
                Seq<(Plist, Plist)>,
                Error,
            >(x),
        },
    decreases budget, 0int, keys@.len() + 1, 0int,
{
    let mut pairs: Vec<(BPList, BPList)> = Vec::new();
    let mut i: usize = 0;
    assert(keys@.take(0) =~= Seq::<u64>::empty());
    assert(vals@.take(0) =~= Seq::<u64>::empty());
    assert(pair_views(pairs@) =~= Seq::<(Plist, Plist)>::empty());
    while i < keys.len()
        invariant
            1 <= rw <= 8,
            i <= keys@.len(),
            keys@.len() == vals@.len(),
            decode_pairs(data@, rw as nat, table@, keys@.take(i as int), vals@.take(i as int), budget as nat)
                == Ok::<Seq<(Plist, Plist)>, Error>(pair_views(pairs@)),
        decreases keys@.len() - i,
    {
        assert(keys@.take(i + 1).drop_last() =~= keys@.take(i as int));
        assert(vals@.take(i + 1).drop_last() =~= vals@.take(i as int));
        assert(vals@.take(i + 1)[i as int] == vals@[i as int]);
        let key = match load_ref(data, rw, table, keys[i], budget) {
            Ok(k) => k,
            Err(x) => {
                proof {
                    lemma_pairs_error_persists(data@, rw as nat, table@, keys@, vals@, budget as nat, i + 1);
                }
                return Err(x);
            },
        };
        let value = match load_ref(data, rw, table, vals[i], budget) {
            Ok(v) => v,
            Err(x) => {
                proof {
                    lemma_pairs_error_persists(data@, rw as nat, table@, keys@, vals@, budget as nat, i + 1);
                }
                return Err(x);
            },
        };
        let ghost prev = pairs@;
        let ghost model = (key@, value@);
        pairs.push((key, value));
        i = i + 1;
        proof {
            lemma_pair_views_push(prev, pairs@.last());
        }
    }
    assert(keys@.take(i as int) =~= keys@);
    assert(vals@.take(i as int) =~= vals@);
    Ok(pairs)
}

/// The eight bytes `bplist00` that open every binary property list.
pub open spec fn magic() -> Seq<u8> {
    seq![0x62u8, 0x70u8, 0x6cu8, 0x69u8, 0x73u8, 0x74u8, 0x30u8, 0x30u8]
}

/// The root value of the binary property list `d`: the magic is checked
/// first, then the footer, the reference width and the offset table are
/// read, and the object that the footer's root index names is decoded.
pub open spec fn document_of(d: Seq<u8>) -> Result<Plist> {
    if d.len() < 8 {
        Err(Error::UnexpectedEndOfInput)
    } else if d.subrange(0, 8) != magic() {
        Err(Error::MalformedFormat(Malformed::Magic))
    } else {
        match trailer_of(d) {
            Err(e) => Err(e),
            Ok(t) => if t.object_ref_size < 1 || t.object_ref_size > 8 {
                Err(Error::MalformedFormat(Malformed::Width))
            } else {
                match offsets_of(d, t) {
                    Err(e) => Err(e),
                    Ok(offs) => decode_ref(
                        d,
                        t.object_ref_size as nat,
                        offs,
                        t.top_object_offset,
                        offs.len(),
                    ),
                }
            },
        }
    }
}

/// Whether the first eight bytes are the magic.
fn has_magic(data: &[u8]) -> (r: bool)
    requires
        data@.len() >= 8,
    ensures
        r == (data@.subrange(0, 8) == magic()),
{
    let r = data[0] == 0x62 && data[1] == 0x70 && data[2] == 0x6c && data[3] == 0x69 && data[4]
        == 0x73 && data[5] == 0x74 && data[6] == 0x30 && data[7] == 0x30;
    if r {
        assert(data@.subrange(0, 8) =~= magic());
    } else {
        assert(data@.subrange(0, 8) != magic()) by {
            if data@.subrange(0, 8) == magic() {
                assert(data@.subrange(0, 8)[0] == data@[0]);
                assert(data@[1] == data@.subrange(0, 8)[1]);
                assert(data@[2] == data@.subrange(0, 8)[2]);
                assert(data@[3] == data@.subrange(0, 8)[3]);
                assert(data@[4] == data@.subrange(0, 8)[4]);
                assert(data@[5] == data@.subrange(0, 8)[5]);
                assert(data@[6] == data@.subrange(0, 8)[6]);
                assert(data@[7] == data@.subrange(0, 8)[7]);
            }
        }
    }
    r
}

impl BPList {
    /// Decodes a whole binary property list held in memory and returns its
    /// root value.
    pub fn load(data: &[u8]) -> (r: Result<BPList>)
        ensures
            match r {
                Ok(v) => document_of(data@) == Ok::<Plist, Error>(v@),
                Err(e) => document_of(data@) == Err::<Plist, Error>(e),
            },
    {
        if data.len() < 8 {
            return Err(Error::UnexpectedEndOfInput);
        }
        if !has_magic(data) {
            return Err(Error::MalformedFormat(Malformed::Magic));
        }
        let trailer = match Trailer::load(data) {
            Ok(t) => t,
            Err(e) => return Err(e),
        };
        let rw = trailer.object_ref_size;
        if rw < 1 || rw > 8 {
            return Err(Error::MalformedFormat(Malformed::Width));
        }
        let table = match ReferenceTable::load(data, &trailer) {
            Ok(t) => t,
            Err(e) => return Err(e),
        };
        let budget = table.len();
        load_ref(data, rw as usize, &table, trailer.top_object_offset, budget)
    }
}

} // verus!
