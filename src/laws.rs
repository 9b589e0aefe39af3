use vstd::prelude::*;

use crate::decode::{
    count_at, decode_at, decode_body, decode_pairs, decode_ref, document_of, magic, param_of, pow2,
    tag_of, Tag, ESCAPE,
};
use crate::reference_table::{be_run, offsets_of};
use crate::result::{Error, Malformed};
use crate::trailer::trailer_of;
use crate::util::{be_value, lemma_be_value_bound, pow256, utf16_text};
use crate::value::{find_from, key_eq, lookup, Plist};

verus! {

/// Decoding is a function of the bytes alone, and the value it returns is
/// the object that the footer's root index names in the offset table,
/// decoded with one hop fewer than there are objects.
pub proof fn lemma_load_is_root_object(d1: Seq<u8>, d2: Seq<u8>)
    requires
        d1 == d2,
    ensures
        document_of(d1) == document_of(d2),
        document_of(d1) is Ok ==> {
            &&& d1.subrange(0, 8) == magic()
            &&& trailer_of(d1) is Ok
            &&& offsets_of(d1, trailer_of(d1)->Ok_0) is Ok
            &&& {
                let t = trailer_of(d1)->Ok_0;
                let offs = offsets_of(d1, t)->Ok_0;
                &&& t.top_object_offset < offs.len()
                &&& decode_at(
                    d1,
                    t.object_ref_size as nat,
                    offs,
                    offs[t.top_object_offset as int] as int,
                    (offs.len() - 1) as nat,
                ) matches Ok((v, _)) && document_of(d1) == Ok::<Plist, Error>(v)
            }
        },
{
}

/// A dictionary decoded from `n` key references and `n` value references
/// has exactly `n` pairs, in file order, and each key and value is what
/// its reference decodes to on its own.
pub proof fn lemma_dict_pairs(
    d: Seq<u8>,
    rw: nat,
    offs: Seq<u64>,
    keys: Seq<u64>,
    vals: Seq<u64>,
    budget: nat,
)
    requires
        keys.len() == vals.len(),
        decode_pairs(d, rw, offs, keys, vals, budget) is Ok,
    ensures
        ({
            let ps = decode_pairs(d, rw, offs, keys, vals, budget)->Ok_0;
            &&& ps.len() == keys.len()
            &&& forall|i: int|
                0 <= i < keys.len() ==> decode_ref(d, rw, offs, keys[i], budget) == Ok::<
                    Plist,
                    Error,
                >(#[trigger] ps[i].0) && decode_ref(d, rw, offs, vals[i], budget) == Ok::<
                    Plist,
                    Error,
                >(ps[i].1)
        }),
    decreases keys.len(),
{
    if keys.len() > 0 {
        let kp = keys.drop_last();
        let vp = vals.drop_last();
        lemma_dict_pairs(d, rw, offs, kp, vp, budget);
        let ps = decode_pairs(d, rw, offs, keys, vals, budget)->Ok_0;
        let prev = decode_pairs(d, rw, offs, kp, vp, budget)->Ok_0;
        assert forall|i: int| 0 <= i < keys.len() implies decode_ref(d, rw, offs, keys[i], budget)
            == Ok::<Plist, Error>(#[trigger] ps[i].0) && decode_ref(d, rw, offs, vals[i], budget)
            == Ok::<Plist, Error>(ps[i].1) by {
            if i < keys.len() - 1 {
                assert(ps[i] == prev[i]);
                assert(kp[i] == keys[i]);
                assert(vp[i] == vals[i]);
            }
        }
    }
}

/// A dictionary object of count `n` whose content starts at `e` has
/// exactly `n` pairs, and each key and value is what the corresponding
/// reference decodes to on its own.
pub proof fn lemma_dict_object(d: Seq<u8>, rw: nat, offs: Seq<u64>, n: nat, e: int, budget: nat)
    requires
        decode_body(d, rw, offs, Tag::Dict, n, e, budget) is Ok,
    ensures
        decode_body(d, rw, offs, Tag::Dict, n, e, budget)->Ok_0.0 matches Plist::Dict(ps) && ps.len()
            == n && forall|i: int|
            0 <= i < n ==> decode_ref(d, rw, offs, be_run(d, e, rw, n)[i], budget) == Ok::<
                Plist,
                Error,
            >(#[trigger] ps[i].0) && decode_ref(d, rw, offs, be_run(d, e + n * rw, rw, n)[i], budget)
                == Ok::<Plist, Error>(ps[i].1),
{
    let keys = be_run(d, e, rw, n);
    let vals = be_run(d, e + n * rw, rw, n);
    assert(keys.len() == n && vals.len() == n);
    lemma_dict_pairs(d, rw, offs, keys, vals, budget);
    assert(decode_body(d, rw, offs, Tag::Dict, n, e, budget)->Ok_0.0 == Plist::Dict(
        decode_pairs(d, rw, offs, keys, vals, budget)->Ok_0,
    ));
}

/// An integer of 1, 2, 4 or 8 bytes decodes to the big-endian number its
/// bytes spell, read as a two's-complement 64-bit word; below 8 bytes that
/// number itself.
pub proof fn lemma_int_is_big_endian(d: Seq<u8>, rw: nat, offs: Seq<u64>, pos: int, budget: nat)
    requires
        0 <= pos < d.len(),
        tag_of(d[pos]) == Tag::Int,
        param_of(d[pos]) <= 3,
        pos + 1 + pow2(param_of(d[pos]) as nat) <= d.len(),
    ensures
        ({
            let w = pow2(param_of(d[pos]) as nat);
            let x = be_value(d.subrange(pos + 1, pos + 1 + w));
            &&& decode_at(d, rw, offs, pos, budget) == Ok::<(Plist, int), Error>(
                (Plist::Int(x as u64 as i64), pos + 1 + w),
            )
            &&& w < 8 ==> (x as u64 as i64) as int == x
        }),
{
    let p = param_of(d[pos]) as nat;
    reveal_with_fuel(pow2, 4);
    let w = pow2(p);
    let bytes = d.subrange(pos + 1, pos + 1 + w);
    lemma_be_value_bound(bytes);
    reveal_with_fuel(pow256, 9);
    assert(w <= 8);
    if w < 8 {
        assert(w <= 4);
        assert(pow256(w) <= pow256(4));
    }
}

/// A count escaped with low nibble 15 is the integer object that follows
/// the marker; any other object there is a format error.
pub proof fn lemma_escaped_count(d: Seq<u8>, rw: nat, offs: Seq<u64>, body: int, budget: nat)
    requires
        0 <= body <= d.len(),
    ensures
        forall|n: i64, e: int|
            decode_at(d, rw, offs, body, budget) == Ok::<(Plist, int), Error>((Plist::Int(n), e))
                && n >= 0 ==> #[trigger] count_at(d, rw, offs, body, ESCAPE, budget) == Ok::<
                (nat, int),
                Error,
            >((n as nat, e)),
        decode_at(d, rw, offs, body, budget) matches Ok((v, _)) && !(v is Int) ==> count_at(
            d,
            rw,
            offs,
            body,
            ESCAPE,
            budget,
        ) == Err::<(nat, int), Error>(Error::MalformedFormat(Malformed::CountNotInt)),
{
}

/// An array or dictionary whose escaped count is not an integer object
/// fails as malformed.
pub proof fn lemma_escaped_count_not_int(d: Seq<u8>, rw: nat, offs: Seq<u64>, pos: int, budget: nat)
    requires
        0 <= pos < d.len(),
        tag_of(d[pos]) == Tag::Array || tag_of(d[pos]) == Tag::Dict,
        param_of(d[pos]) == ESCAPE,
        decode_at(d, rw, offs, pos + 1, budget) matches Ok((v, _)) && !(v is Int),
    ensures
        decode_at(d, rw, offs, pos, budget) == Err::<(Plist, int), Error>(
            Error::MalformedFormat(Malformed::CountNotInt),
        ),
{
}

/// A UTF-16 byte run of odd length is not text.
pub proof fn lemma_odd_utf16_fails(b: Seq<u8>)
    requires
        b.len() % 2 == 1,
    ensures
        utf16_text(b) == Err::<Seq<char>, Error>(Error::TextEncodingFailure),
{
}

/// A real, an array or a dictionary used as a key matches nothing.
pub proof fn lemma_incomparable_keys_never_match(v: Plist, key: Plist)
    requires
        key is Real || key is Array || key is Dict,
    ensures
        lookup(v, key) is None,
{
    if let Plist::Dict(ps) = v {
        lemma_find_from_no_match(ps, key, 0);
    }
}

proof fn lemma_find_from_no_match(ps: Seq<(Plist, Plist)>, key: Plist, i: int)
    requires
        forall|j: int| 0 <= j < ps.len() ==> !key_eq(#[trigger] ps[j].0, key),
    ensures
        find_from(ps, key, i) is None,
    decreases ps.len() - i,
{
    if 0 <= i < ps.len() {
        lemma_find_from_no_match(ps, key, i + 1);
    }
}

proof fn lemma_find_from_first(ps: Seq<(Plist, Plist)>, key: Plist, i: int, k: int)
    requires
        0 <= i <= k < ps.len(),
        key_eq(ps[k].0, key),
        forall|j: int| i <= j < k ==> !key_eq(#[trigger] ps[j].0, key),
    ensures
        find_from(ps, key, i) == Some(ps[k].1),
    decreases k - i,
{
    if i < k {
        lemma_find_from_first(ps, key, i + 1, k);
    }
}

/// In a dictionary, a key that no pair holds is not found, and one that a
/// pair holds is found with the value of the first such pair.
pub proof fn lemma_lookup_first_match(ps: Seq<(Plist, Plist)>, key: Plist)
    ensures
        (forall|j: int| 0 <= j < ps.len() ==> !key_eq(#[trigger] ps[j].0, key)) ==> lookup(
            Plist::Dict(ps),
            key,
        ) is None,
        forall|k: int|
            0 <= k < ps.len() && key_eq(#[trigger] ps[k].0, key) && (forall|j: int|
                0 <= j < k ==> !key_eq(#[trigger] ps[j].0, key)) ==> lookup(Plist::Dict(ps), key)
                == Some(ps[k].1),
{
    if forall|j: int| 0 <= j < ps.len() ==> !key_eq(#[trigger] ps[j].0, key) {
        lemma_find_from_no_match(ps, key, 0);
    }
    assert forall|k: int|
        0 <= k < ps.len() && key_eq(#[trigger] ps[k].0, key) && (forall|j: int|
            0 <= j < k ==> !key_eq(#[trigger] ps[j].0, key)) implies lookup(Plist::Dict(ps), key)
        == Some(ps[k].1) by {
        lemma_find_from_first(ps, key, 0, k);
    }
}

/// Input that does not open with `bplist00` is rejected as malformed,
/// whatever follows.
pub proof fn lemma_bad_magic(d: Seq<u8>)
    requires
        d.len() >= 8,
        d.subrange(0, 8) != magic(),
    ensures
        document_of(d) == Err::<Plist, Error>(Error::MalformedFormat(Malformed::Magic)),
{
}

/// An object whose fixed-size body, or whose inline-counted content, runs
/// past the end of the input fails with end of input.
pub proof fn lemma_truncated_body(d: Seq<u8>, rw: nat, offs: Seq<u64>, pos: int, budget: nat)
    requires
        0 <= pos < d.len(),
        ({
            let m = d[pos];
            let p = param_of(m) as nat;
            let t = tag_of(m);
            let body = pos + 1;
            ||| (t == Tag::Int || t == Tag::Real) && body + pow2(p) > d.len()
            ||| t == Tag::Uid && body + p + 1 > d.len()
            ||| (t == Tag::Data || t == Tag::AsciiStr) && p != ESCAPE as nat && body + p > d.len()
            ||| t == Tag::Utf16Str && p != ESCAPE as nat && body + 2 * p > d.len()
            ||| t == Tag::Array && p != ESCAPE as nat && body + p * rw > d.len()
            ||| t == Tag::Dict && p != ESCAPE as nat && body + 2 * p * rw > d.len()
        }),
    ensures
        decode_at(d, rw, offs, pos, budget) == Err::<(Plist, int), Error>(Error::UnexpectedEndOfInput),
{
}

} // verus!
