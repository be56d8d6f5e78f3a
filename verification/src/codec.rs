//! The message codec: one block for each byte of the text.

use crate::big_integer::{big_from_u64, big_to_u8, BigInteger};
use crate::error::RsaError;
use vstd::prelude::*;
use vstd::string::{is_ascii, is_ascii_spec_bytes, StringSliceAdditionalSpecFns};

verus! {

/// The character whose code point is the byte `b`.
pub open spec fn byte_char(b: u8) -> char {
    b as char
}

/// Whether the block holds a byte.
pub open spec fn is_byte(v: int) -> bool {
    0 <= v <= 255
}

/// Trusted: `String::push` of std, taken to append the character.
#[verifier::external_body]
fn string_push(s: &mut String, c: char)
    ensures
        final(s)@ == old(s)@.push(c),
{
    s.push(c);
}

/// Encodes a text as blocks: one block for each byte of its UTF-8 encoding,
/// in order, holding the value of the byte.
pub fn string_para_numeros(texto: &str) -> (r: Vec<BigInteger>)
    ensures
        r.len() == texto.spec_bytes().len(),
        forall|i: int| 0 <= i < r.len() ==> (#[trigger] r[i])@ == texto.spec_bytes()[i],
{
    let bytes = texto.as_bytes();
    let mut out: Vec<BigInteger> = Vec::new();
    let mut i: usize = 0;
    while i < bytes.len()
        invariant
            i <= bytes.len(),
            bytes@ == texto.spec_bytes(),
            out.len() == i,
            forall|j: int| 0 <= j < i ==> (#[trigger] out[j])@ == bytes@[j],
        decreases bytes.len() - i,
    {
        out.push(big_from_u64(bytes[i] as u64));
        i += 1;
    }
    out
}

/// Decodes blocks as a text: one character for each block, in order, whose
/// code point is the byte that the block holds. A block outside `[0, 255]`
/// is `DecodingFailed`.
pub fn numeros_para_string(numeros: &Vec<BigInteger>) -> (r: Result<String, RsaError>)
    ensures
        r is Err <==> exists|i: int| 0 <= i < numeros.len() && !is_byte(#[trigger] numeros[i]@),
        r matches Err(e) ==> e == RsaError::DecodingFailed,
        r matches Ok(s) ==> {
            &&& s@.len() == numeros.len()
            &&& forall|i: int|
                0 <= i < numeros.len() ==> #[trigger] s@[i] == byte_char(numeros[i]@ as u8)
        },
{
    let mut out = String::new();
    let mut i: usize = 0;
    while i < numeros.len()
        invariant
            i <= numeros.len(),
            out@.len() == i,
            forall|j: int| 0 <= j < i ==> is_byte(#[trigger] numeros[j]@),
            forall|j: int| 0 <= j < i ==> #[trigger] out@[j] == byte_char(numeros[j]@ as u8),
        decreases numeros.len() - i,
    {
        match big_to_u8(&numeros[i]) {
            Some(b) => {
                string_push(&mut out, b as char);
            },
            None => {
                return Err(RsaError::DecodingFailed);
            },
        }
        i += 1;
    }
    Ok(out)
}

/// An ASCII text comes back from its blocks: decoding what encoding gave
/// yields the text, character by character.
pub proof fn lemma_ascii_round_trip(texto: &str, blocks: Seq<int>, decoded: Seq<char>)
    requires
        is_ascii(texto),
        blocks.len() == texto.spec_bytes().len(),
        forall|i: int| 0 <= i < blocks.len() ==> #[trigger] blocks[i] == texto.spec_bytes()[i],
        decoded.len() == blocks.len(),
        forall|i: int|
            0 <= i < blocks.len() ==> #[trigger] decoded[i] == byte_char(blocks[i] as u8),
    ensures
        decoded == texto@,
{
    is_ascii_spec_bytes(texto);
    assert forall|i: int| 0 <= i < decoded.len() implies decoded[i] == texto@[i] by {
        // an ASCII character is the character of its own byte
        let c = texto@[i];
        assert(byte_char(c as u8) == c);
    }
}

} // verus!
