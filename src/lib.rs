pub mod decode;
pub mod imessage;
pub mod laws;
pub mod print;
pub mod reference_table;
pub mod result;
pub mod trailer;
pub mod util;
pub mod value;

pub use reference_table::ReferenceTable;
pub use result::{Error, Malformed, Result};
pub use trailer::Trailer;
pub use util::{as_utf16, as_utf8, from_be_bytes};
pub use value::BPList;
