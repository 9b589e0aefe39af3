use vstd::prelude::*;

use crate::result::{Error, Result};
use crate::util::{be_value, from_be_bytes};

verus! {

/// The fixed 32-byte footer of a binary property list.
#[derive(Debug, Clone, Copy, PartialEq, Eq, Structural)]
pub struct Trailer {
    /// Width in bytes of each offset-table entry.
    pub offset_table_offset_size: u8,
    /// Width in bytes of each object reference inside arrays and dictionaries.
    pub object_ref_size: u8,
    /// Number of objects, and of offset-table entries.
    pub num_objects: u64,
    /// Offset-table index of the root object.
    pub top_object_offset: u64,
    /// Byte position at which the offset table begins.
    pub offset_table_start: u64,
}

/// Size of the footer in bytes.
pub const TRAILER_SIZE: usize = 32;

/// The footer that the last 32 bytes of `d` describe.
pub open spec fn trailer_of(d: Seq<u8>) -> Result<Trailer> {
    if d.len() < 32 {
        Err(Error::UnexpectedEndOfInput)
    } else {
        let t = d.subrange(d.len() - 32, d.len() as int);
        Ok(
            Trailer {
                offset_table_offset_size: t[6],
                object_ref_size: t[7],
                num_objects: be_value(t.subrange(8, 16)) as u64,
                top_object_offset: be_value(t.subrange(16, 24)) as u64,
                offset_table_start: be_value(t.subrange(24, 32)) as u64,
            },
        )
    }
}

impl Trailer {
    /// Reads the footer from the last 32 bytes of a whole file: six unused
    /// bytes, the two widths, then three big-endian 64-bit fields.
    pub fn load(data: &[u8]) -> (r: Result<Trailer>)
        ensures
            r == trailer_of(data@),
    {
        if data.len() < TRAILER_SIZE {
            return Err(Error::UnexpectedEndOfInput);
        }
        let base: usize = data.len() - TRAILER_SIZE;
        let t = &data[base..data.len()];
        let num_objects = from_be_bytes(&t[8..16]);
        let top_object_offset = from_be_bytes(&t[16..24]);
        let offset_table_start = from_be_bytes(&t[24..32]);
        Ok(
            Trailer {
                offset_table_offset_size: t[6],
                object_ref_size: t[7],
                num_objects,
                top_object_offset,
                offset_table_start,
            },
        )
    }
}

} // verus!
