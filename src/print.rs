use vstd::prelude::*;
use vstd::string::StringExecFns;

use crate::value::{lemma_pair_views_push, lemma_views_push, pair_views, views, BPList, Plist};

verus! {

/// The character of a decimal digit.
pub open spec fn digit_char(d: nat) -> char {
    (('0' as u32) + d) as char
}

/// The decimal digits of `n`, most significant first.
pub open spec fn digits(n: nat) -> Seq<char>
    decreases n,
{
    if n < 10 {
        seq![digit_char(n)]
    } else {
        digits(n / 10).push(digit_char(n % 10))
    }
}

/// The decimal text of an integer, with a leading `-` when negative.
pub open spec fn decimal(i: int) -> Seq<char> {
    if i < 0 {
        seq!['-'] + digits((-i) as nat)
    } else {
        digits(i as nat)
    }
}

/// The character of a lower-case hexadecimal digit.
pub open spec fn hex_char(d: nat) -> char {
    if d < 10 {
        digit_char(d)
    } else {
        (('a' as u32) + (d - 10)) as char
    }
}

/// The sixteen lower-case hexadecimal digits of a 64-bit word, most
/// significant first.
pub open spec fn hex16(x: u64) -> Seq<char> {
    Seq::new(16, |i: int| hex_char(((x as nat) / pow16((15 - i) as nat)) % 16))
}

/// 16 to the power `n`.
pub open spec fn pow16(n: nat) -> nat
    decreases n,
{
    if n == 0 {
        1
    } else {
        16 * pow16((n - 1) as nat)
    }
}

/// A name for what `{:?}` makes of a string: the text in double quotes,
/// with escapes.
pub uninterp spec fn debug_quoted(s: Seq<char>) -> Seq<char>;

/// Relies on the `Display` impl of `i64`: the decimal text, `-` first when
/// negative.
#[verifier::external_body]
fn int_text(i: i64) -> (r: String)
    ensures
        r@ == decimal(i as int),
{
    format!("{}", i)
}

/// Relies on `LowerHex` with the `016` width: exactly sixteen lower-case
/// hexadecimal digits, zero-padded.
#[verifier::external_body]
fn hex_text(x: u64) -> (r: String)
    ensures
        r@ == hex16(x),
{
    format!("{:016x}", x)
}

/// Relies on the `Debug` impl of `str`: the text quoted and escaped, a
/// function of the characters alone.
#[verifier::external_body]
fn quoted_text(s: &str) -> (r: String)
    ensures
        r@ == debug_quoted(s@),
{
    format!("{:?}", s)
}

/// The depth of the children of a value printed at `depth`.
pub open spec fn child_depth(depth: u64) -> u64 {
    if depth < u64::MAX {
        (depth + 1) as u64
    } else {
        depth
    }
}

/// Two spaces per level.
pub open spec fn indent(depth: nat) -> Seq<char> {
    Seq::new(2 * depth, |i: int| ' ')
}

/// Each byte in decimal followed by a space.
pub open spec fn bytes_text(b: Seq<u8>) -> Seq<char>
    decreases b.len(),
{
    if b.len() == 0 {
        Seq::empty()
    } else {
        bytes_text(b.drop_last()) + decimal(b.last() as int) + seq![' ']
    }
}

/// The text of a value printed at `depth`: scalars as literals, data and
/// UIDs as their bytes in brackets, reals as `0x` and their bit pattern,
/// arrays and dictionaries one child per line, indented one level deeper,
/// with the closing bracket at the value's own depth.
pub open spec fn render(v: Plist, depth: u64) -> Seq<char>
    decreases v,
{
    match v {
        Plist::Null => seq!['n', 'u', 'l', 'l'],
        Plist::Bool(b) => if b {
            seq!['t', 'r', 'u', 'e']
        } else {
            seq!['f', 'a', 'l', 's', 'e']
        },
        Plist::Filler => seq!['f', 'i', 'l', 'l', 'e', 'r'],
        Plist::Int(i) => decimal(i as int),
        Plist::Real(bits) => seq!['0', 'x'] + hex16(bits),
        Plist::Data(b) => seq!['[', ' '] + bytes_text(b) + seq![']'],
        Plist::Str(s) => debug_quoted(s),
        Plist::Uid(b) => seq!['[', ' '] + bytes_text(b) + seq![']'],
        Plist::Array(items) => seq!['[', ' ', '\n'] + render_items(items, child_depth(depth)) + indent(
            depth as nat,
        ) + seq![']'],
        Plist::Dict(ps) => seq!['{', '\n'] + render_pairs(ps, child_depth(depth)) + indent(
            depth as nat,
        ) + seq!['}'],
    }
}

/// One line per item: indentation, the item, a comma.
pub open spec fn render_items(items: Seq<Plist>, depth: u64) -> Seq<char>
    decreases items,
{
    if items.len() == 0 {
        Seq::empty()
    } else {
        render_items(items.subrange(0, items.len() - 1), depth) + indent(depth as nat) + render(
            items[items.len() - 1],
            depth,
        ) + seq![',', '\n']
    }
}

/// One line per pair: indentation, the key, ` -> `, the value, a comma.
pub open spec fn render_pairs(ps: Seq<(Plist, Plist)>, depth: u64) -> Seq<char>
    decreases ps,
{
    if ps.len() == 0 {
        Seq::empty()
    } else {
        let last = ps[ps.len() - 1];
        render_pairs(ps.subrange(0, ps.len() - 1), depth) + indent(depth as nat) + render(
            last.0,
            depth,
        ) + seq![' ', '-', '>', ' '] + render(last.1, depth) + seq![',', '\n']
    }
}

/// Appends two spaces per level of depth.
fn print_depth(out: &mut String, depth: u64)
    ensures
        final(out)@ == old(out)@ + indent(depth as nat),
{
    let mut i: u64 = 0;
    while i < depth
        invariant
            i <= depth,
            out@ == old(out)@ + indent(i as nat),
        decreases depth - i,
    {
        out.append("  ");
        proof {
            reveal_strlit("  ");
        }
        i = i + 1;
        assert(out@ =~= old(out)@ + indent(i as nat));
    }
}

/// Appends each byte in decimal, followed by a space.
fn print_bytes(out: &mut String, bytes: &Vec<u8>)
    ensures
        final(out)@ == old(out)@ + bytes_text(bytes@),
{
    let mut i: usize = 0;
    while i < bytes.len()
        invariant
            i <= bytes@.len(),
            out@ == old(out)@ + bytes_text(bytes@.subrange(0, i as int)),
        decreases bytes@.len() - i,
    {
        let t = int_text(bytes[i] as i64);
        out.append(t.as_str());
        out.append(" ");
        proof {
            reveal_strlit(" ");
        }
        i = i + 1;
        assert(bytes@.subrange(0, i as int).drop_last() =~= bytes@.subrange(0, i - 1));
        assert(out@ =~= old(out)@ + bytes_text(bytes@.subrange(0, i as int)));
    }
    assert(bytes@.subrange(0, i as int) =~= bytes@);
}

impl BPList {
    /// Renders the value as indented text, as if it stood at `depth`.
    pub fn print(&self, depth: u64) -> (r: String)
        ensures
            r@ == render(self@, depth),
    {
        let mut out = String::new();
        self.print_into(&mut out, depth);
        assert(out@ =~= render(self@, depth));
        out
    }

    /// Appends the text of the value, as if it stood at `depth`.
    fn print_into(&self, out: &mut String, depth: u64)
        ensures
            final(out)@ == old(out)@ + render(self@, depth),
        decreases self,
    {
        let ghost start = out@;
        match self {
            BPList::Null => {
                out.append("null");
                proof {
                    reveal_strlit("null");
                }
                assert(out@ =~= start + render(self@, depth));
            },
            BPList::Bool(b) => {
                if *b {
                    out.append("true");
                    proof {
                        reveal_strlit("true");
                    }
                } else {
                    out.append("false");
                    proof {
                        reveal_strlit("false");
                    }
                }
                assert(out@ =~= start + render(self@, depth));
            },
            BPList::Filler => {
                out.append("filler");
                proof {
                    reveal_strlit("filler");
                }
                assert(out@ =~= start + render(self@, depth));
            },
            BPList::Int(i) => {
                let t = int_text(*i);
                out.append(t.as_str());
            },
            BPList::Real(bits) => {
                out.append("0x");
                proof {
                    reveal_strlit("0x");
                }
                let t = hex_text(*bits);
                out.append(t.as_str());
                assert(out@ =~= start + render(self@, depth));
            },
            BPList::Data(bytes) | BPList::UID(bytes) => {
                out.append("[ ");
                proof {
                    reveal_strlit("[ ");
                }
                print_bytes(out, bytes);
                out.append("]");
                proof {
                    reveal_strlit("]");
                }
                assert(out@ =~= start + render(self@, depth));
            },
            BPList::Str(s) => {
                let t = quoted_text(s.as_str());
                out.append(t.as_str());
            },
            BPList::Array(items) => {
                let inner: u64 = if depth < u64::MAX {
                    depth + 1
                } else {
                    depth
                };
                out.append("[ \n");
                proof {
                    reveal_strlit("[ \n");
                }
                let ghost head = out@;
                let mut i: usize = 0;
                assert(items@.take(0) =~= Seq::<BPList>::empty());
                while i < items.len()
                    invariant
                        i <= items@.len(),
                        *self == BPList::Array(*items),
                        inner == child_depth(depth),
                        out@ == head + render_items(views(items@.take(i as int)), inner),
                    decreases items@.len() - i,
                {
                    print_depth(out, inner);
                    proof {
                        let v = (*self)->Array_0;
                        assert(decreases_to!(*self => v));
                        assert(decreases_to!(v => v@));
                        assert(decreases_to!(v@ => v@[i as int]));
                    }
                    items[i].print_into(out, inner);
                    out.append(",\n");
                    proof {
                        reveal_strlit(",\n");
                        assert(items@.take(i + 1) =~= items@.take(i as int).push(items@[i as int]));
                        lemma_views_push(items@.take(i as int), items@[i as int]);
                        let vs = views(items@.take(i + 1));
                        assert(vs.subrange(0, vs.len() - 1) =~= views(items@.take(i as int)));
                    }
                    i = i + 1;
                    assert(out@ =~= head + render_items(views(items@.take(i as int)), inner));
                }
                print_depth(out, depth);
                out.append("]");
                proof {
                    reveal_strlit("]");
                    assert(items@.take(i as int) =~= items@);
                }
                assert(out@ =~= start + render(self@, depth));
            },
            BPList::Dict(pairs) => {
                let inner: u64 = if depth < u64::MAX {
                    depth + 1
                } else {
                    depth
                };
                out.append("{\n");
                proof {
                    reveal_strlit("{\n");
                }
                let ghost head = out@;
                let mut i: usize = 0;
                assert(pairs@.take(0) =~= Seq::<(BPList, BPList)>::empty());
                while i < pairs.len()
                    invariant
                        i <= pairs@.len(),
                        *self == BPList::Dict(*pairs),
                        inner == child_depth(depth),
                        out@ == head + render_pairs(pair_views(pairs@.take(i as int)), inner),
                    decreases pairs@.len() - i,
                {
                    print_depth(out, inner);
                    proof {
                        let v = (*self)->Dict_0;
                        assert(decreases_to!(*self => v));
                        assert(decreases_to!(v => v@));
                        assert(decreases_to!(v@ => v@[i as int]));
                        assert(decreases_to!(v@[i as int] => v@[i as int].0));
                        assert(decreases_to!(v@[i as int] => v@[i as int].1));
                    }
                    pairs[i].0.print_into(out, inner);
                    out.append(" -> ");
                    pairs[i].1.print_into(out, inner);
                    out.append(",\n");
                    proof {
                        reveal_strlit(" -> ");
                        reveal_strlit(",\n");
                        assert(pairs@.take(i + 1) =~= pairs@.take(i as int).push(pairs@[i as int]));
                        lemma_pair_views_push(pairs@.take(i as int), pairs@[i as int]);
                        let ps = pair_views(pairs@.take(i + 1));
                        assert(ps.subrange(0, ps.len() - 1) =~= pair_views(pairs@.take(i as int)));
                    }
                    i = i + 1;
                    assert(out@ =~= head + render_pairs(pair_views(pairs@.take(i as int)), inner));
                }
                print_depth(out, depth);
                out.append("}");
                proof {
                    reveal_strlit("}");
                    assert(pairs@.take(i as int) =~= pairs@);
                }
                assert(out@ =~= start + render(self@, depth));
            },
        }
    }
}

} // verus!
