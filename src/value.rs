use vstd::prelude::*;

use crate::result::{Error, Result};

verus! {

/// The mathematical model of a decoded value.
pub enum Plist {
    Null,
    Bool(bool),
    Filler,
    Int(i64),
    /// The IEEE-754 bit pattern of a double.
    Real(u64),
    Data(Seq<u8>),
    Str(Seq<char>),
    Uid(Seq<u8>),
    Array(Seq<Plist>),
    Dict(Seq<(Plist, Plist)>),
}

/// A decoded property-list value. Arrays and dictionaries own their children;
/// a dictionary is an ordered list of pairs, in file order, and may repeat keys.
/// A real is held as the bit pattern of an IEEE-754 double.
#[derive(Debug)]
pub enum BPList {
    Null,
    Bool(bool),
    Filler,
    Int(i64),
    Real(u64),
    Data(Vec<u8>),
    Str(String),
    UID(Vec<u8>),
    Array(Vec<BPList>),
    Dict(Vec<(BPList, BPList)>),
}

impl View for BPList {
    type V = Plist;

    open spec fn view(&self) -> Plist
        decreases self,
    {
        match self {
            BPList::Null => Plist::Null,
            BPList::Bool(b) => Plist::Bool(*b),
            BPList::Filler => Plist::Filler,
            BPList::Int(i) => Plist::Int(*i),
            BPList::Real(bits) => Plist::Real(*bits),
            BPList::Data(bytes) => Plist::Data(bytes@),
            BPList::Str(s) => Plist::Str(s@),
            BPList::UID(bytes) => Plist::Uid(bytes@),
            BPList::Array(items) => Plist::Array(views(items@)),
            BPList::Dict(pairs) => Plist::Dict(pair_views(pairs@)),
        }
    }
}

/// The models of a run of values.
pub open spec fn views(s: Seq<BPList>) -> Seq<Plist>
    decreases s,
{
    if s.len() == 0 {
        Seq::empty()
    } else {
        views(s.subrange(0, s.len() - 1)).push(s[s.len() - 1].view())
    }
}

/// The models of a run of pairs.
pub open spec fn pair_views(s: Seq<(BPList, BPList)>) -> Seq<(Plist, Plist)>
    decreases s,
{
    if s.len() == 0 {
        Seq::empty()
    } else {
        let last = s[s.len() - 1];
        pair_views(s.subrange(0, s.len() - 1)).push((last.0.view(), last.1.view()))
    }
}

/// Appending a value appends its model.
pub proof fn lemma_views_push(s: Seq<BPList>, v: BPList)
    ensures
        views(s.push(v)) == views(s).push(v@),
{
    assert(s.push(v).subrange(0, s.len() as int) =~= s);
}

/// Appending a pair appends its model.
pub proof fn lemma_pair_views_push(s: Seq<(BPList, BPList)>, p: (BPList, BPList))
    ensures
        pair_views(s.push(p)) == pair_views(s).push((p.0@, p.1@)),
{
    assert(s.push(p).subrange(0, s.len() as int) =~= s);
}

/// The models of a run have its length, and each is the model of the value
/// at the same place.
pub proof fn lemma_views_index(s: Seq<BPList>)
    ensures
        views(s).len() == s.len(),
        forall|i: int| 0 <= i < s.len() ==> #[trigger] views(s)[i] == s[i]@,
    decreases s.len(),
{
    if s.len() > 0 {
        let prefix = s.subrange(0, s.len() - 1);
        lemma_views_index(prefix);
        assert(views(s) == views(prefix).push(s[s.len() - 1]@));
        assert(forall|i: int| 0 <= i < prefix.len() ==> prefix[i] == s[i]);
    }
}

/// The models of a run of pairs have its length, and each is the pair of
/// models at the same place.
pub proof fn lemma_pair_views_index(s: Seq<(BPList, BPList)>)
    ensures
        pair_views(s).len() == s.len(),
        forall|i: int| 0 <= i < s.len() ==> #[trigger] pair_views(s)[i] == (s[i].0@, s[i].1@),
    decreases s.len(),
{
    if s.len() > 0 {
        let prefix = s.subrange(0, s.len() - 1);
        lemma_pair_views_index(prefix);
        assert(pair_views(s) == pair_views(prefix).push((s[s.len() - 1].0@, s[s.len() - 1].1@)));
        assert(forall|i: int| 0 <= i < prefix.len() ==> prefix[i] == s[i]);
    }
}

/// Key equality: null, filler, booleans, integers, data, strings and UIDs
/// compare by value; a real, an array or a dictionary equals nothing, not
/// even itself.
pub open spec fn key_eq(a: Plist, b: Plist) -> bool {
    match (a, b) {
        (Plist::Null, Plist::Null) => true,
        (Plist::Bool(x), Plist::Bool(y)) => x == y,
        (Plist::Filler, Plist::Filler) => true,
        (Plist::Int(x), Plist::Int(y)) => x == y,
        (Plist::Data(x), Plist::Data(y)) => x == y,
        (Plist::Str(x), Plist::Str(y)) => x == y,
        (Plist::Uid(x), Plist::Uid(y)) => x == y,
        _ => false,
    }
}

/// The value of the first pair from index `i` on whose key equals `key`.
pub open spec fn find_from(ps: Seq<(Plist, Plist)>, key: Plist, i: int) -> Option<Plist>
    decreases ps.len() - i,
{
    if i < 0 || i >= ps.len() {
        None
    } else if key_eq(ps[i].0, key) {
        Some(ps[i].1)
    } else {
        find_from(ps, key, i + 1)
    }
}

/// The value that a dictionary associates with `key`: that of the first
/// pair whose key equals it. Nothing for any other value.
pub open spec fn lookup(v: Plist, key: Plist) -> Option<Plist> {
    match v {
        Plist::Dict(ps) => find_from(ps, key, 0),
        _ => None,
    }
}

impl PartialEq for BPList {
    fn eq(&self, other: &BPList) -> (r: bool) {
        match (self, other) {
            (BPList::Null, BPList::Null) => true,
            (BPList::Bool(x), BPList::Bool(y)) => *x == *y,
            (BPList::Filler, BPList::Filler) => true,
            (BPList::Int(x), BPList::Int(y)) => *x == *y,
            (BPList::Data(x), BPList::Data(y)) => {
                let r = *x == *y;
                assert(r == (x@ == y@)) by {
                    if r {
                        assert(x@ =~= y@);
                    }
                }
                r
            },
            (BPList::Str(x), BPList::Str(y)) => *x == *y,
            (BPList::UID(x), BPList::UID(y)) => {
                let r = *x == *y;
                assert(r == (x@ == y@)) by {
                    if r {
                        assert(x@ =~= y@);
                    }
                }
                r
            },
            _ => false,
        }
    }
}

impl vstd::std_specs::cmp::PartialEqSpecImpl for BPList {
    open spec fn obeys_eq_spec() -> bool {
        true
    }

    open spec fn eq_spec(&self, other: &BPList) -> bool {
        key_eq(self@, other@)
    }
}

impl BPList {
    /// Looks a key up in a dictionary: the value of the first pair whose key
    /// equals `lookup_key`, or `NotFound`. Any value but a dictionary holds
    /// no keys.
    pub fn get(&self, lookup_key: BPList) -> (r: Result<&BPList>)
        ensures
            r is Ok <==> lookup(self@, lookup_key@) is Some,
            r matches Ok(x) ==> lookup(self@, lookup_key@) == Some(x@),
            r matches Err(e) ==> e == Error::NotFound,
    {
        match self {
            BPList::Dict(items) => {
                let ghost ps = pair_views(items@);
                proof {
                    lemma_pair_views_index(items@);
                }
                let mut i: usize = 0;
                while i < items.len()
                    invariant
                        self@ == Plist::Dict(ps),
                        ps == pair_views(items@),
                        ps.len() == items@.len(),
                        forall|j: int| 0 <= j < items@.len() ==> #[trigger] ps[j] == (
                            items@[j].0@,
                            items@[j].1@,
                        ),
                        i <= items@.len(),
                        find_from(ps, lookup_key@, 0) == find_from(ps, lookup_key@, i as int),
                    decreases items@.len() - i,
                {
                    let hit = items[i].0.eq(&lookup_key);
                    if hit {
                        assert(key_eq(items@[i as int].0@, lookup_key@));
                        assert(ps[i as int] == (items@[i as int].0@, items@[i as int].1@));
                        assert(find_from(ps, lookup_key@, i as int) == Some(ps[i as int].1));
                        return Ok(&items[i].1);
                    }
                    i = i + 1;
                }
                Err(Error::NotFound)
            },
            _ => Err(Error::NotFound),
        }
    }

    /// Looks a string key up in a dictionary.
    pub fn gets(&self, lookup_key: &str) -> (r: Result<&BPList>)
        ensures
            r is Ok <==> lookup(self@, Plist::Str(lookup_key@)) is Some,
            r matches Ok(x) ==> lookup(self@, Plist::Str(lookup_key@)) == Some(x@),
            r matches Err(e) ==> e == Error::NotFound,
    {
        self.get(BPList::Str(lookup_key.to_owned()))
    }

    /// Looks an integer key up in a dictionary.
    pub fn geti(&self, lookup_key: usize) -> (r: Result<&BPList>)
        ensures
            r is Ok <==> lookup(self@, Plist::Int(lookup_key as i64)) is Some,
            r matches Ok(x) ==> lookup(self@, Plist::Int(lookup_key as i64)) == Some(x@),
            r matches Err(e) ==> e == Error::NotFound,
    {
        self.get(BPList::Int(lookup_key as i64))
    }
}

} // verus!
