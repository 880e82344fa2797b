//! Decoding of word-to-root corpus lines into root records.
//!
//! Two line formats are understood: a morpheme format
//! (`word<TAB>text:TAG/text:TAG/...`) and a PostgreSQL array format
//! (`root | {word,word,...}`). Every decoder is a verified pure function.
use vstd::prelude::*;

pub mod decode;
pub mod record;
pub mod text;

verus! {

} // verus!
