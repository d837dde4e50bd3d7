//! Island language source units and the foundation parse stub.

use vstd::prelude::*;
use crate::types::MetisError;

verus! {

/// Placeholder source unit (path + text).
#[derive(Clone, Debug, PartialEq, Eq)]
pub struct SourceFile {
    pub path: String,
    pub text: String,
}

/// Parse outcome for the foundation stub.
#[derive(Clone, Copy, Debug, PartialEq, Eq, Structural)]
pub struct ParseStub {
    pub byte_len: usize,
}

/// Accepts any non-empty text and reports its length in UTF-8 bytes.
pub fn parse_stub(src: &SourceFile) -> (r: Result<ParseStub, MetisError>)
    ensures
        src.text@.len() == 0 ==> r == Err::<ParseStub, MetisError>(MetisError::InvalidHandle),
        src.text@.len() != 0 ==> (r matches Ok(p) && p.byte_len == vstd::utf8::encode_utf8(src.text@).len() as usize),
{
    let text = src.text.as_str();
    if text.is_empty() {
        return Err(MetisError::InvalidHandle);
    }
    Ok(ParseStub { byte_len: text.len() })
}

} // verus!
