//! A byte string checked to hold only ASCII, convertible to text without
//! re-validation.

use vstd::prelude::*;

verus! {

/// A vector of bytes proven to be ASCII.
pub struct Ascii(Vec<u8>);

/// The bytes that were rejected, handed back to the caller.
pub struct NotAsciiError(pub Vec<u8>);

/// Relies on String::from_utf8: ASCII bytes are valid UTF-8 and decode to
/// the characters with those same values.
#[verifier::external_body]
fn ascii_bytes_to_string(bytes: Vec<u8>) -> (r: String)
    requires
        forall|i: int| 0 <= i < bytes@.len() ==> bytes@[i] < 128,
    ensures
        r@.len() == bytes@.len(),
        forall|i: int| 0 <= i < r@.len() ==> (r@[i] as u32) == bytes@[i] as u32,
{
    String::from_utf8(bytes).unwrap()
}

impl Ascii {
    /// The bytes held.
    pub closed spec fn bytes(self) -> Seq<u8> {
        self.0@
    }

    /// Every byte is ASCII.
    pub open spec fn wf(self) -> bool {
        forall|i: int| 0 <= i < self.bytes().len() ==> self.bytes()[i] < 128
    }

    /// Accepts the bytes exactly when every one is ASCII; otherwise they
    /// come back unchanged in the error.
    pub fn from_bytes(bytes: Vec<u8>) -> (r: Result<Ascii, NotAsciiError>)
        ensures
            r is Ok <==> (forall|i: int| 0 <= i < bytes@.len() ==> bytes@[i] < 128),
            r is Ok ==> r->Ok_0.bytes() == bytes@ && r->Ok_0.wf(),
            r is Err ==> r->Err_0.0@ == bytes@,
    {
        let mut i: usize = 0;
        while i < bytes.len()
            invariant
                i <= bytes@.len(),
                forall|j: int| 0 <= j < i ==> bytes@[j] < 128,
            decreases bytes@.len() - i,
        {
            if bytes[i] >= 128 {
                return Err(NotAsciiError(bytes));
            }
            i = i + 1;
        }
        Ok(Ascii(bytes))
    }

    /// The bytes as text: one character per byte, with the same values.
    pub fn into_string(self) -> (r: String)
        requires
            self.wf(),
        ensures
            r@.len() == self.bytes().len(),
            forall|i: int| 0 <= i < r@.len() ==> (r@[i] as u32) == self.bytes()[i] as u32,
    {
        let ghost bv = self.bytes();
        let Ascii(bytes) = self;
        proof {
            assert(bytes@ == bv);
        }
        ascii_bytes_to_string(bytes)
    }
}

} // verus!
