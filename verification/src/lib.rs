//! Wire format for the requests and responses of a document archive, and the
//! multi-valued hash map that indexes the archive.
use vstd::prelude::*;

pub mod bigendian;
pub mod decimal;
pub mod message;
pub mod multimap;
pub mod text;
