//! Borrowed byte strings taken from the blob.

use vstd::prelude::*;
use vstd::string::StringSliceAdditionalSpecFns;
use vstd::utf8::valid_utf8;

verus! {

/// A string borrowed from the blob; UTF-8 validity is not checked.
#[derive(Clone, Copy, Debug, PartialEq, Eq)]
pub struct Str<'a>(pub &'a [u8]);

impl<'a> View for Str<'a> {
    type V = Seq<u8>;

    open spec fn view(&self) -> Seq<u8> {
        self.0@
    }
}

/// The error of `core::str::from_utf8`, reported as such by [`Str::as_str`].
#[verifier::external_type_specification]
#[verifier::external_body]
pub struct ExUtf8Error(core::str::Utf8Error);

/// Relies on `core::str::from_utf8`: it succeeds exactly on UTF-8 input,
/// and the returned string views the same bytes.
#[verifier::external_body]
fn bytes_as_str(b: &[u8]) -> (r: Result<&str, core::str::Utf8Error>)
    ensures
        match r {
            Ok(s) => s.spec_bytes() == b@ && valid_utf8(b@),
            Err(_) => !valid_utf8(b@),
        },
{
    core::str::from_utf8(b)
}

impl<'a> Str<'a> {
    /// The underlying bytes.
    pub fn as_bytes(&self) -> (r: &'a [u8])
        ensures
            r@ == self@,
    {
        self.0
    }

    /// The bytes reinterpreted as UTF-8 text, if they are valid UTF-8.
    pub fn as_str(&self) -> (r: Result<&'a str, core::str::Utf8Error>)
        ensures
            match r {
                Ok(s) => s.spec_bytes() == self@ && valid_utf8(self@),
                Err(_) => !valid_utf8(self@),
            },
    {
        bytes_as_str(self.0)
    }

    /// Whether `needle` is a prefix of this string.
    pub fn starts_with(&self, needle: &str) -> (r: bool)
        ensures
            r == (needle.spec_bytes().len() <= self@.len() && self@.subrange(
                0,
                needle.spec_bytes().len() as int,
            ) == needle.spec_bytes()),
    {
        let n = needle.as_bytes();
        if n.len() > self.0.len() {
            return false;
        }
        let mut i: usize = 0;
        while i < n.len()
            invariant
                0 <= i <= n@.len() <= self@.len(),
                n@ == needle.spec_bytes(),
                forall|j: int| 0 <= j < i ==> self@[j] == n@[j],
            decreases n@.len() - i,
        {
            if self.0[i] != n[i] {
                proof {
                    assert(self@.subrange(0, n@.len() as int)[i as int] != n@[i as int]);
                }
                return false;
            }
            i += 1;
        }
        proof {
            assert(self@.subrange(0, n@.len() as int) =~= n@);
        }
        true
    }
}

} // verus!
