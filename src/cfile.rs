//! Errors of reading a text file into a nul-terminated string, and the check
//! that its bytes can form one.

use vstd::prelude::*;

verus! {

#[verifier::external_type_specification]
#[verifier::external_body]
pub struct ExIoError(std::io::Error);

#[derive(Debug)]
pub enum Error {
    Io(std::io::Error),
    PathDoesNotExist,
    FileContainsNil,
}

impl From<std::io::Error> for Error {
    fn from(inp: std::io::Error) -> (r: Self)
        ensures
            r == Error::Io(inp),
    {
        Error::Io(inp)
    }
}

impl vstd::std_specs::convert::FromSpecImpl<std::io::Error> for Error {
    open spec fn obeys_from_spec() -> bool {
        true
    }

    open spec fn from_spec(inp: std::io::Error) -> Self {
        Error::Io(inp)
    }
}

/// Bytes can become a nul-terminated string only when none of them is zero.
pub fn check_no_nul(buffer: &Vec<u8>) -> (r: Result<(), Error>)
    ensures
        r is Ok <==> forall|i: int| 0 <= i < buffer@.len() ==> buffer@[i] != 0,
        r is Err ==> r == Err::<(), Error>(Error::FileContainsNil),
{
    let mut i: usize = 0;
    while i < buffer.len()
        invariant
            i <= buffer@.len(),
            forall|j: int| 0 <= j < i ==> buffer@[j] != 0,
        decreases buffer@.len() - i,
    {
        if buffer[i] == 0 {
            return Err(Error::FileContainsNil);
        }
        i = i + 1;
    }
    Ok(())
}

} // verus!
