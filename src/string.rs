//! Nul-terminated byte strings.
use vstd::prelude::*;
use vstd::slice::slice_to_vec;
use vstd::utf8::{
    decode_utf8, encode_scalar, encode_utf8, has_width_1_encoding, last_continuation_byte,
    leading_byte_width_1, leading_byte_width_2, leading_byte_width_3, leading_byte_width_4,
    second_last_continuation_byte, third_last_continuation_byte, valid_utf8,
};

verus! {

/// The error of `core::str::from_utf8`, carried through as an opaque value.
#[verifier::external_type_specification]
#[verifier::external_body]
pub struct ExUtf8Error(core::str::Utf8Error);

/// Relies on `core::str::from_utf8`: it succeeds exactly on valid UTF-8, and
/// the returned `str` holds the very bytes it was given.
#[verifier::external_body]
fn utf8_from_bytes(b: &[u8]) -> (r: Result<&str, core::str::Utf8Error>)
    ensures
        r is Ok <==> valid_utf8(b@),
        r is Ok ==> r->Ok_0@ == decode_utf8(b@),
{
    core::str::from_utf8(b)
}


proof fn lemma_scalar_bytes_nonzero(c: u32)
    by (bit_vector)
    requires
        c != 0,
    ensures
        has_width_1_encoding(c) ==> leading_byte_width_1(c) != 0,
        leading_byte_width_2(c) != 0,
        leading_byte_width_3(c) != 0,
        leading_byte_width_4(c) != 0,
        last_continuation_byte(c) != 0,
        second_last_continuation_byte(c) != 0,
        third_last_continuation_byte(c) != 0,
{
}

/// The UTF-8 encoding of a text without NUL characters holds no zero byte,
/// so such a text fits a nul-terminated string.
pub proof fn lemma_encode_utf8_nul_free(s: Seq<char>)
    requires
        !s.contains('\0'),
    ensures
        !encode_utf8(s).contains(0u8),
    decreases s.len(),
{
    if s.len() > 0 {
        let rest = s.drop_first();
        assert forall|i: int| 0 <= i < rest.len() implies rest[i] != '\0' by {
            assert(rest[i] == s[i + 1]);
        }
        lemma_encode_utf8_nul_free(rest);
        assert(s[0] != '\0');
        let c = s[0] as u32;
        vstd::utf8::char_u32_cast(s[0], c);
        vstd::utf8::char_u32_cast('\0', '\0' as u32);
        assert('\0' as u32 == 0);
        assert(c != 0);
        lemma_scalar_bytes_nonzero(c);
        let head = encode_scalar(c);
        let all = encode_utf8(s);
        assert(all == head + encode_utf8(rest));
        assert forall|i: int| 0 <= i < all.len() implies all[i] != 0u8 by {
            if i >= head.len() {
                assert(all[i] == encode_utf8(rest)[i - head.len()]);
            }
        }
    }
}

/// A nul-terminated string with a 1-byte alignment; it holds the bytes before
/// the terminator, whatever their encoding.
#[derive(Debug, Clone, PartialEq, Eq)]
pub struct CString(Vec<u8>);

/// `s` is the part of `b` before its first zero byte (all of `b` if none).
pub open spec fn is_nul_prefix(s: Seq<u8>, b: Seq<u8>) -> bool {
    &&& s.len() <= b.len()
    &&& s == b.take(s.len() as int)
    &&& !s.contains(0u8)
    &&& (s.len() == b.len() || b[s.len() as int] == 0u8)
}

impl View for CString {
    type V = Seq<u8>;

    closed spec fn view(&self) -> Seq<u8> {
        self.0@
    }
}

impl CString {
    /// Takes the bytes of `bytes` up to, not including, the first zero byte.
    pub fn from_bytes(bytes: &[u8]) -> (r: Self)
        ensures
            is_nul_prefix(r@, bytes@),
    {
        let mut v: Vec<u8> = Vec::new();
        let mut i: usize = 0;
        while i < bytes.len() && bytes[i] != 0u8
            invariant
                i <= bytes@.len(),
                v@ == bytes@.take(i as int),
                !v@.contains(0u8),
            decreases bytes@.len() - i,
        {
            v.push(bytes[i]);
            i = i + 1;
            assert(v@ =~= bytes@.take(i as int));
        }
        CString(v)
    }

    /// Wraps a byte vector as is.
    pub fn from_vec(bytes: Vec<u8>) -> (r: Self)
        ensures
            r@ == bytes@,
    {
        CString(bytes)
    }

    /// The contained bytes, without the terminator.
    pub fn as_bytes(&self) -> (r: &[u8])
        ensures
            r@ == self@,
    {
        self.0.as_slice()
    }

    /// The length of the contained string in bytes.
    pub fn len(&self) -> (r: usize)
        ensures
            r == self@.len(),
    {
        self.0.len()
    }

    /// Whether the contained string has no bytes.
    pub fn is_empty(&self) -> (r: bool)
        ensures
            r == (self@.len() == 0),
    {
        self.0.len() == 0
    }

    /// The contained bytes as text, if they are valid UTF-8.
    pub fn to_str(&self) -> (r: Result<&str, core::str::Utf8Error>)
        ensures
            r is Ok <==> valid_utf8(self@),
            r is Ok ==> r->Ok_0@ == decode_utf8(self@),
    {
        utf8_from_bytes(self.0.as_slice())
    }

    /// The contained bytes as an owned text, if they are valid UTF-8.
    pub fn to_string(&self) -> (r: Result<String, core::str::Utf8Error>)
        ensures
            r is Ok <==> valid_utf8(self@),
            r is Ok ==> r->Ok_0@ == decode_utf8(self@),
    {
        match self.to_str() {
            Ok(s) => Ok(s.to_owned()),
            Err(e) => Err(e),
        }
    }

    /// The UTF-8 encoding of `s`.
    pub fn from_text(s: &str) -> (r: Self)
        ensures
            r@ == encode_utf8(s@),
    {
        CString(slice_to_vec(s.as_bytes()))
    }
}

} // verus!
