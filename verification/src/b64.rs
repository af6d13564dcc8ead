use vstd::prelude::*;

verus! {

/// The characters that standard base64 text is built from: the 64 alphabet
/// characters plus the padding character `=`.
pub open spec fn is_b64_char(c: char) -> bool {
    ||| 'A' <= c <= 'Z'
    ||| 'a' <= c <= 'z'
    ||| '0' <= c <= '9'
    ||| c == '+'
    ||| c == '/'
    ||| c == '='
}

/// The standard base64 text for a byte string (with padding).
pub uninterp spec fn b64_of(bytes: Seq<u8>) -> Seq<char>;

/// The bytes that a text decodes to under standard base64, or `None` where
/// the text is not acceptable base64.
pub uninterp spec fn b64_decoded(text: Seq<char>) -> Option<Seq<u8>>;

/// Relies on base64's `Engine::encode` with the standard engine: the result
/// is the padded base64 text of the input, it decodes back to the input, and
/// it consists of alphabet and padding characters only.
#[verifier::external_body]
pub(crate) fn b64_encode(bytes: &[u8]) -> (r: String)
    ensures
        r@ == b64_of(bytes@),
        b64_decoded(r@) == Some(bytes@),
        forall|i: int| 0 <= i < r@.len() ==> is_b64_char(#[trigger] r@[i]),
{
    base64::Engine::encode(&base64::engine::general_purpose::STANDARD, bytes)
}

/// Relies on base64's `Engine::decode` with the standard engine: it returns
/// the decoded bytes, or an error exactly when the text is not acceptable
/// base64.
#[verifier::external_body]
pub(crate) fn b64_decode(text: &str) -> (r: Result<Vec<u8>, ()>)
    ensures
        r is Ok <==> b64_decoded(text@) is Some,
        r is Ok ==> r.unwrap()@ == b64_decoded(text@).unwrap(),
{
    base64::Engine::decode(&base64::engine::general_purpose::STANDARD, text).map_err(|_| ())
}

} // verus!
