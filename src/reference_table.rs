use vstd::prelude::*;

use crate::result::{Error, Malformed, Result};
use crate::trailer::Trailer;
use crate::util::{be_value, from_be_bytes};

verus! {

/// The `n` big-endian unsigned integers, each `w` bytes wide, that lie one
/// after another in `d` from position `start`.
pub open spec fn be_run(d: Seq<u8>, start: int, w: nat, n: nat) -> Seq<u64> {
    Seq::new(n, |i: int| be_value(d.subrange(start + i * w, start + i * w + w)) as u64)
}

/// The offset table that `d` holds for the footer `t`.
pub open spec fn offsets_of(d: Seq<u8>, t: Trailer) -> Result<Seq<u64>> {
    let w = t.offset_table_offset_size as nat;
    if w < 1 || w > 8 {
        Err(Error::MalformedFormat(Malformed::Width))
    } else if t.offset_table_start + t.num_objects * w > d.len() {
        Err(Error::UnexpectedEndOfInput)
    } else {
        Ok(be_run(d, t.offset_table_start as int, w, t.num_objects as nat))
    }
}

proof fn lemma_run_step(start: int, w: nat, i: int, n: int)
    requires
        0 <= i < n,
    ensures
        start + i * w + w <= start + n * w,
        start + (i + 1) * w == start + i * w + w,
{
    assert(i * w + w <= n * w) by (nonlinear_arith)
        requires
            i < n,
    ;
    assert((i + 1) * w == i * w + w) by (nonlinear_arith);
}

/// Reads `n` big-endian integers of `w` bytes each, from position `start`.
pub(crate) fn read_be_run(data: &[u8], start: usize, w: usize, n: usize) -> (r: Vec<u64>)
    requires
        1 <= w <= 8,
        start + n * w <= data@.len(),
    ensures
        r@ == be_run(data@, start as int, w as nat, n as nat),
{
    let dl: usize = data.len();
    let mut r: Vec<u64> = Vec::new();
    let mut i: usize = 0;
    let mut p: usize = start;
    while i < n
        invariant
            dl == data@.len(),
            1 <= w <= 8,
            start + n * w <= data@.len(),
            i <= n,
            p == start + i * w,
            r@ == be_run(data@, start as int, w as nat, n as nat).subrange(0, i as int),
        decreases n - i,
    {
        proof {
            lemma_run_step(start as int, w as nat, i as int, n as int);
        }
        let v = from_be_bytes(&data[p..p + w]);
        r.push(v);
        p = p + w;
        i = i + 1;
        assert(r@ =~= be_run(data@, start as int, w as nat, n as nat).subrange(0, i as int));
    }
    assert(r@ =~= be_run(data@, start as int, w as nat, n as nat));
    r
}

/// Maps each object index to the byte position of that object's encoding.
pub struct ReferenceTable(Vec<u64>);

impl View for ReferenceTable {
    type V = Seq<u64>;

    closed spec fn view(&self) -> Seq<u64> {
        self.0@
    }
}

impl ReferenceTable {
    /// Reads the offset table that the footer describes from a whole file.
    pub fn load(data: &[u8], trailer: &Trailer) -> (r: Result<ReferenceTable>)
        ensures
            match r {
                Ok(t) => offsets_of(data@, *trailer) == Ok::<Seq<u64>, Error>(t@),
                Err(e) => offsets_of(data@, *trailer) == Err::<Seq<u64>, Error>(e),
            },
    {
        let w = trailer.offset_table_offset_size;
        if w < 1 || w > 8 {
            return Err(Error::MalformedFormat(Malformed::Width));
        }
        let len = data.len() as u64;
        let start = trailer.offset_table_start;
        let n = trailer.num_objects;
        if start > len {
            return Err(Error::UnexpectedEndOfInput);
        }
        if n > (len - start) / (w as u64) {
            proof {
                assert(n * w > len - start) by (nonlinear_arith)
                    requires
                        n > (len - start) / (w as int),
                        w >= 1,
                ;
            }
            return Err(Error::UnexpectedEndOfInput);
        }
        proof {
            assert(n * w <= len - start) by (nonlinear_arith)
                requires
                    n <= (len - start) / (w as int),
                    w >= 1,
                    len >= start,
            ;
        }
        let offsets = read_be_run(data, start as usize, w as usize, n as usize);
        Ok(ReferenceTable(offsets))
    }

    /// The byte position of the object with the given index, if there is one.
    pub fn get(&self, key: &u64) -> (r: Option<u64>)
        ensures
            r == (if *key < self@.len() {
                Some(self@[*key as int])
            } else {
                None::<u64>
            }),
    {
        if *key < self.0.len() as u64 {
            Some(self.0[*key as usize])
        } else {
            None
        }
    }

    /// The number of objects in the table.
    pub fn len(&self) -> (r: usize)
        ensures
            r == self@.len(),
    {
        self.0.len()
    }
}

} // verus!
