use vstd::prelude::*;

pub mod data;
pub mod text;
pub mod path;
pub mod query;
pub mod decode;
pub mod convert;
pub mod file;
pub mod meta;
pub mod workspace;

verus! {

/// Adds two bytes, reported as a result for callers that expect one.
pub fn really_complicated_code(a: u8, b: u8) -> (r: Result<u8, ()>)
    requires
        a + b <= u8::MAX,
    ensures
        r == Ok::<u8, ()>((a + b) as u8),
{
    Ok(a + b)
}

} // verus!
