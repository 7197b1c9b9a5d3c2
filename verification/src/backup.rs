//! Reading the GitHub backup of the table: the file's content as the
//! contents API hands it over, base64 in lines, turned back into bytes.

use vstd::prelude::*;
use vstd::string::*;
use vstd::utf8::encode_utf8;
use base64::Engine;
use base64::engine::general_purpose::STANDARD;

verus! {

/// What base64's `STANDARD` engine (standard alphabet, padding required)
/// decodes the given text to, `None` where it refuses the text.
pub uninterp spec fn standard_base64_decoded(text: Seq<u8>) -> Option<Seq<u8>>;

/// Calls base64's `Engine::decode` on the `STANDARD` engine. Claimed: the
/// result is `standard_base64_decoded` of the text, a function of the text
/// alone (the engine's configuration is fixed); which texts it accepts and
/// what they decode to is left to that name.
#[verifier::external_body]
fn decode_standard_base64(text: &[u8]) -> (r: Option<Vec<u8>>)
    ensures
        match r {
            Some(b) => standard_base64_decoded(text@) == Some(b@),
            None => standard_base64_decoded(text@) is None,
        },
{
    STANDARD.decode(text).ok()
}

/// The bytes of a backup whose content is `content`: the line breaks the
/// API puts in are dropped and the rest is decoded as standard base64;
/// `None` where that is not valid base64.
pub fn backup_bytes(content: &str) -> (r: Option<Vec<u8>>)
    ensures
        match r {
            Some(b) => standard_base64_decoded(encode_utf8(content@.filter(|c: char| c != '\n'))) == Some(
                b@,
            ),
            None => standard_base64_decoded(encode_utf8(content@.filter(|c: char| c != '\n'))) is None,
        },
{
    let n = content.unicode_len();
    let mut text = String::new();
    let mut i: usize = 0;
    while i < n
        invariant
            n == content@.len(),
            i <= n,
            text@ == content@.take(i as int).filter(|c: char| c != '\n'),
        decreases n - i,
    {
        proof {
            reveal(Seq::filter);
            assert(content@.take(i + 1).drop_last() =~= content@.take(i as int));
            assert(content@.take(i + 1).last() == content@[i as int]);
        }
        if content.get_char(i) != '\n' {
            text.append(content.substring_char(i, i + 1));
            proof {
                assert(text@ =~= content@.take(i + 1).filter(|c: char| c != '\n'));
            }
        }
        i += 1;
    }
    assert(content@.take(n as int) =~= content@);
    let bytes = text.as_str().as_bytes();
    decode_standard_base64(bytes)
}

} // verus!
