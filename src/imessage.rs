use vstd::prelude::*;

use crate::result::{Error, Result};
use crate::value::{key_eq, lookup, BPList, Plist};

verus! {

/// `$objects`: the key of a keyed archive's object array.
pub open spec fn objects_key() -> Seq<char> {
    seq!['$', 'o', 'b', 'j', 'e', 'c', 't', 's']
}

/// `$class`: the key of an archived object's class reference.
pub open spec fn class_key() -> Seq<char> {
    seq!['$', 'c', 'l', 'a', 's', 's']
}

/// `NS.string`: the key of an archived string's text.
pub open spec fn text_key() -> Seq<char> {
    seq!['N', 'S', '.', 's', 't', 'r', 'i', 'n', 'g']
}

/// The class reference that marks a chat message.
pub open spec fn message_class() -> Plist {
    Plist::Uid(seq![18u8])
}

/// The text of an archived object when its class is that of a message;
/// nothing for an object of another class or of none; `NotFound` for a
/// message without text.
pub open spec fn message_of(item: Plist) -> Result<Option<Plist>> {
    match lookup(item, Plist::Str(class_key())) {
        None => Ok(None),
        Some(c) => if key_eq(c, message_class()) {
            match lookup(item, Plist::Str(text_key())) {
                Some(t) => Ok(Some(t)),
                None => Err(Error::NotFound),
            }
        } else {
            Ok(None)
        },
    }
}

/// The texts of the messages among `items`, in order; the first failure wins.
pub open spec fn messages_in(items: Seq<Plist>) -> Result<Seq<Plist>>
    decreases items.len(),
{
    if items.len() == 0 {
        Ok(Seq::empty())
    } else {
        match messages_in(items.drop_last()) {
            Err(e) => Err(e),
            Ok(ms) => match message_of(items.last()) {
                Err(e) => Err(e),
                Ok(None) => Ok(ms),
                Ok(Some(t)) => Ok(ms.push(t)),
            },
        }
    }
}

/// The texts of the chat messages in a decoded keyed archive: those of the
/// objects under `$objects` whose class is the message class.
pub open spec fn messages(root: Plist) -> Result<Seq<Plist>> {
    match lookup(root, Plist::Str(objects_key())) {
        None => Err(Error::NotFound),
        Some(Plist::Array(items)) => messages_in(items),
        Some(_) => Ok(Seq::empty()),
    }
}

/// The models of a run of borrowed values.
pub open spec fn ref_views(s: Seq<&BPList>) -> Seq<Plist> {
    Seq::new(s.len(), |i: int| s[i]@)
}

/// Collects the texts of the chat messages in a decoded keyed archive.
pub fn explore(bplist: &BPList) -> (r: Result<Vec<&BPList>>)
    ensures
        match r {
            Ok(ms) => messages(bplist@) == Ok::<Seq<Plist>, Error>(ref_views(ms@)),
            Err(e) => messages(bplist@) == Err::<Seq<Plist>, Error>(e),
        },
{
    proof {
        reveal_strlit("$objects");
        reveal_strlit("$class");
        reveal_strlit("NS.string");
    }
    assert("$objects"@ =~= objects_key());
    assert("$class"@ =~= class_key());
    assert("NS.string"@ =~= text_key());
    let objects = match bplist.gets("$objects") {
        Ok(o) => o,
        Err(e) => return Err(e),
    };
    let mut out: Vec<&BPList> = Vec::new();
    if let BPList::Array(items) = objects {
        let ghost models = objects@->Array_0;
        proof {
            crate::value::lemma_views_index(items@);
        }
        assert(models == crate::value::views(items@));
        assert(messages(bplist@) == messages_in(models));
        let mut i: usize = 0;
        assert(models.take(0) =~= Seq::<Plist>::empty());
        assert(ref_views(out@) =~= Seq::<Plist>::empty());
        while i < items.len()
            invariant
                i <= items@.len(),
                messages(bplist@) == messages_in(models),
                models.len() == items@.len(),
                forall|j: int| 0 <= j < items@.len() ==> #[trigger] models[j] == items@[j]@,
                "$class"@ == class_key(),
                "NS.string"@ == text_key(),
                messages_in(models.take(i as int)) == Ok::<Seq<Plist>, Error>(ref_views(out@)),
            decreases items@.len() - i,
        {
            let item = &items[i];
            assert(models.take(i + 1).drop_last() =~= models.take(i as int));
            assert(models.take(i + 1).last() == item@);
            let class = item.gets("$class");
            match class {
                Err(_) => {},
                Ok(c) => {
                    let mut mark: Vec<u8> = Vec::new();
                    mark.push(18u8);
                    assert(mark@ =~= seq![18u8]);
                    let tag = BPList::UID(mark);
                    if c.eq(&tag) {
                        match item.gets("NS.string") {
                            Ok(t) => {
                                let ghost prev = out@;
                                out.push(t);
                                assert(ref_views(out@) =~= ref_views(prev).push(t@));
                            },
                            Err(e) => {
                                proof {
                                    lemma_messages_error_persists(models, i + 1);
                                }
                                return Err(e);
                            },
                        }
                    }
                },
            }
            i = i + 1;
        }
        assert(models.take(i as int) =~= models);
    } else {
        assert(ref_views(out@) =~= Seq::<Plist>::empty());
    }
    Ok(out)
}

/// Once the messages of a prefix fail, those of every longer prefix fail alike.
proof fn lemma_messages_error_persists(items: Seq<Plist>, i: int)
    requires
        0 <= i <= items.len(),
        messages_in(items.take(i)) is Err,
    ensures
        messages_in(items) == messages_in(items.take(i)),
    decreases items.len() - i,
{
    if i < items.len() {
        assert(items.take(i + 1).drop_last() =~= items.take(i));
        lemma_messages_error_persists(items, i + 1);
    } else {
        assert(items.take(i) =~= items);
    }
}

} // verus!
