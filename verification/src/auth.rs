//! The signature of the authentication request of the private streams.
use crate::json::{decimal, hex_digit, hex_value, is_hex_char, push_char, push_decimal};
use hmac::Mac;
use vstd::prelude::*;

verus! {

broadcast use vstd::string::group_string_axioms;

/// The HMAC-SHA256 of `msg` under `key`.
pub uninterp spec fn hmac_sha256_of(key: Seq<u8>, msg: Seq<u8>) -> Seq<u8>;

/// HMAC-SHA256 of `msg` keyed with `key`, with the hmac crate
/// (`Hmac::<Sha256>::new_from_slice`, `update`, `finalize`).
/// Trusted: the tag is the crate's (named `hmac_sha256_of`) and is 32 bytes
/// long; `new_from_slice` takes keys of any length, so a tag always comes.
#[verifier::external_body]
fn hmac_sha256(key: &[u8], msg: &[u8]) -> (mac: Option<Vec<u8>>)
    ensures
        mac is Some,
        mac.unwrap()@ == hmac_sha256_of(key@, msg@),
        mac.unwrap()@.len() == 32,
{
    match hmac::Hmac::<sha2::Sha256>::new_from_slice(key) {
        Ok(mut m) => {
            m.update(msg);
            Some(m.finalize().into_bytes().to_vec())
        },
        Err(_) => None,
    }
}

/// Bytes as lower-case hexadecimal, two digits per byte.
pub open spec fn hex_lower(bytes: Seq<u8>) -> Seq<char>
    decreases bytes.len(),
{
    if bytes.len() == 0 {
        Seq::empty()
    } else {
        hex_lower(bytes.drop_last()) + seq![
            hex_digit((bytes.last() / 16) as nat),
            hex_digit((bytes.last() % 16) as nat),
        ]
    }
}

/// What is signed for an authentication request that expires at `expires`.
pub open spec fn signature_payload(expires: u64) -> Seq<char> {
    "GET/realtime"@ + decimal(expires as nat)
}

/// The signature of an authentication request: the lower-case hexadecimal
/// HMAC-SHA256 of the payload under the API secret.
pub open spec fn signature_of(api_secret: Seq<char>, expires: u64) -> Seq<char> {
    hex_lower(
        hmac_sha256_of(
            vstd::utf8::encode_utf8(api_secret),
            vstd::utf8::encode_utf8(signature_payload(expires)),
        ),
    )
}

fn hex_char(v: u8) -> (c: char)
    requires
        v < 16,
    ensures
        c == hex_digit(v as nat),
{
    if v < 10 {
        ((v + 48) as u8) as char
    } else {
        ((v + 87) as u8) as char
    }
}

/// Appends `bytes` to `out` in lower-case hexadecimal.
pub fn push_hex(out: &mut String, bytes: &Vec<u8>)
    ensures
        final(out)@ == old(out)@ + hex_lower(bytes@),
{
    let ghost start = out@;
    let mut i: usize = 0;
    while i < bytes.len()
        invariant
            i <= bytes.len(),
            out@ == start + hex_lower(bytes@.take(i as int)),
        decreases bytes.len() - i,
    {
        let b: u8 = bytes[i];
        push_char(out, hex_char(b / 16));
        push_char(out, hex_char(b % 16));
        proof {
            assert(bytes@.take(i + 1).drop_last() =~= bytes@.take(i as int));
            assert(bytes@.take(i + 1).last() == b);
            assert(out@ =~= start + hex_lower(bytes@.take(i + 1)));
        }
        i = i + 1;
    }
    assert(bytes@.take(bytes.len() as int) =~= bytes@);
}

/// The signature of an authentication request that expires at `expires`.
pub fn generate_ws_signature(api_secret: &str, expires: u64) -> (sig: String)
    ensures
        sig@ == signature_of(api_secret@, expires),
        ({
            let tag = hmac_sha256_of(
                vstd::utf8::encode_utf8(api_secret@),
                vstd::utf8::encode_utf8("GET/realtime"@ + decimal(expires as nat)),
            );
            &&& sig@.len() == 2 * tag.len()
            &&& forall|i: int| 0 <= i < sig@.len() ==> is_hex_char(#[trigger] sig@[i])
            &&& forall|i: int|
                0 <= i < tag.len() ==> hex_value(#[trigger] sig@[2 * i]) * 16 + hex_value(
                    sig@[2 * i + 1],
                ) == tag[i]
        }),
{
    let mut payload = String::from_str("GET/realtime");
    push_decimal(&mut payload, expires);
    let mac = hmac_sha256(api_secret.as_bytes(), payload.as_str().as_bytes()).unwrap();
    let mut sig = String::new();
    push_hex(&mut sig, &mac);
    proof {
        assert(sig@ =~= hex_lower(mac@));
        lemma_signature_keyed_with_whole_secret(api_secret@, expires);
    }
    sig
}


/// Lower-case hexadecimal reads back as the bytes it was written from:
/// two hexadecimal digits per byte, the first for the high four bits.
pub proof fn lemma_hex_lower_reads_back(bytes: Seq<u8>)
    ensures
        hex_lower(bytes).len() == 2 * bytes.len(),
        forall|i: int| 0 <= i < hex_lower(bytes).len() ==> is_hex_char(#[trigger] hex_lower(bytes)[i]),
        forall|i: int|
            0 <= i < bytes.len() ==> hex_value(#[trigger] hex_lower(bytes)[2 * i]) * 16 + hex_value(
                hex_lower(bytes)[2 * i + 1],
            ) == bytes[i],
    decreases bytes.len(),
{
    if bytes.len() > 0 {
        let front = bytes.drop_last();
        lemma_hex_lower_reads_back(front);
        let h = hex_lower(bytes);
        let hf = hex_lower(front);
        let b = bytes.last();
        assert(h == hf + seq![hex_digit((b / 16) as nat), hex_digit((b % 16) as nat)]);
        assert forall|i: int| 0 <= i < h.len() implies is_hex_char(#[trigger] h[i]) by {
            if i < hf.len() {
                assert(h[i] == hf[i]);
            }
        }
        assert forall|i: int| 0 <= i < bytes.len() implies hex_value(#[trigger] h[2 * i]) * 16
            + hex_value(h[2 * i + 1]) == bytes[i] by {
            if i < front.len() {
                assert(h[2 * i] == hf[2 * i]);
                assert(h[2 * i + 1] == hf[2 * i + 1]);
                assert(front[i] == bytes[i]);
            } else {
                assert(h[2 * i] == hex_digit((b / 16) as nat));
                assert(h[2 * i + 1] == hex_digit((b % 16) as nat));
            }
        }
    }
}

/// The signature is the HMAC-SHA256 keyed with the UTF-8 bytes of the whole
/// API secret, over `GET/realtime` followed by the decimal expiry, written
/// as lower-case hexadecimal (two digits per byte of the tag).
pub proof fn lemma_signature_keyed_with_whole_secret(api_secret: Seq<char>, expires: u64)
    ensures
        ({
            let sig = signature_of(api_secret, expires);
            let tag = hmac_sha256_of(
                vstd::utf8::encode_utf8(api_secret),
                vstd::utf8::encode_utf8("GET/realtime"@ + decimal(expires as nat)),
            );
            &&& sig.len() == 2 * tag.len()
            &&& forall|i: int| 0 <= i < sig.len() ==> is_hex_char(#[trigger] sig[i])
            &&& forall|i: int|
                0 <= i < tag.len() ==> hex_value(#[trigger] sig[2 * i]) * 16 + hex_value(
                    sig[2 * i + 1],
                ) == tag[i]
        }),
{
    lemma_hex_lower_reads_back(
        hmac_sha256_of(
            vstd::utf8::encode_utf8(api_secret),
            vstd::utf8::encode_utf8("GET/realtime"@ + decimal(expires as nat)),
        ),
    );
}

/// Different API secrets are different HMAC keys, however long they are and
/// wherever they differ.
pub proof fn lemma_distinct_secrets_distinct_keys(s1: Seq<char>, s2: Seq<char>)
    requires
        s1 != s2,
    ensures
        vstd::utf8::encode_utf8(s1) != vstd::utf8::encode_utf8(s2),
{
    vstd::utf8::encode_utf8_decode_utf8(s1);
    vstd::utf8::encode_utf8_decode_utf8(s2);
}

} // verus!
