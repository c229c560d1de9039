use vstd::prelude::*;
use vstd::string::StrSliceExecFns;
use vstd::utf8::{decode_utf8, encode_utf8, valid_utf8};

use crate::bytearray::utf8_to_string;
use crate::text::str_eq;

verus! {

/// One field of a legacy-format message: the sender and receiver agree on
/// field order, so values are concatenated without per-field framing.
#[derive(Clone)]
pub enum OldData {
    String(String),
    Bool(bool),
    Byte(i8),
    Short(i16),
    Integer(i32),
    Long(i64),
}

/// Relies on `rand::random_range`: a uniform draw from `[0, n)`, which the
/// crate documents to lie inside the (non-empty) range.
#[verifier::external_body]
pub(crate) fn random_index(n: usize) -> (r: usize)
    requires
        n > 0,
    ensures
        r < n,
{
    rand::random_range(0..n)
}

/// Relies on `rand::random_range`: a uniform draw from `[1, 2147483647)`,
/// which the crate documents to lie inside the range; used for per-session
/// auth tokens, which must never be zero.
#[verifier::external_body]
pub(crate) fn random_auth_key() -> (r: i32)
    ensures
        1 <= r < 2147483647,
{
    rand::random_range(1..2147483647)
}

/// The zlib stream that flate2 produces for the given input: a function of
/// the bytes alone, since the bundled encoder is pure code with fixed
/// settings.
pub uninterp spec fn zlib_of(data: Seq<u8>) -> Seq<u8>;

/// Relies on flate2's `ZlibEncoder` over a `Vec` sink: the sink's writes
/// cannot fail, so compression always succeeds, and its output depends on
/// the input bytes alone.
#[verifier::external_body]
pub(crate) fn deflate_bytes(data: &[u8]) -> (r: Vec<u8>)
    ensures
        r@ == zlib_of(data@),
{
    let mut encoder = flate2::write::ZlibEncoder::new(Vec::new(), flate2::Compression::default());
    let _ = std::io::Write::write_all(&mut encoder, data);
    encoder.finish().unwrap_or_default()
}

/// Compresses map markup for the map-load packet.
pub fn encode_xml(xml: String) -> (r: Vec<u8>)
    ensures
        r@ == zlib_of(vstd::utf8::encode_utf8(xml@)),
{
    deflate_bytes(xml.as_str().as_bytes())
}

/// Decimal digit image of `n`, most significant digit first.
pub open spec fn spec_dec_bytes(n: nat) -> Seq<u8>
    decreases n,
{
    if n < 10 {
        seq![(48 + n) as u8]
    } else {
        spec_dec_bytes(n / 10) + seq![(48 + n % 10) as u8]
    }
}

/// The ASCII decimal digits of `v`.
pub fn dec_bytes_u32(v: u32) -> (r: Vec<u8>)
    ensures
        r@ == spec_dec_bytes(v as nat),
    decreases v,
{
    if v < 10 {
        let mut out: Vec<u8> = Vec::new();
        out.push(48 + (v as u8));
        proof {
            assert(out@ =~= spec_dec_bytes(v as nat));
        }
        out
    } else {
        let mut out = dec_bytes_u32(v / 10);
        out.push(48 + ((v % 10) as u8));
        proof {
            assert(out@ =~= spec_dec_bytes(v as nat));
        }
        out
    }
}

/// The ASCII decimal digits of `v`, with a leading minus sign if negative.
pub open spec fn spec_dec_bytes_signed(v: int) -> Seq<u8> {
    if v < 0 {
        seq![45u8] + spec_dec_bytes((-v) as nat)
    } else {
        spec_dec_bytes(v as nat)
    }
}

pub fn dec_bytes_i8(v: i8) -> (r: Vec<u8>)
    ensures
        r@ == spec_dec_bytes_signed(v as int),
{
    if v < 0 {
        let mag: u32 = if v == i8::MIN {
            128
        } else {
            (-v) as u32
        };
        let digits = dec_bytes_u32(mag);
        let mut out: Vec<u8> = Vec::new();
        out.push(45);
        let mut d = digits;
        out.append(&mut d);
        proof {
            assert(out@ =~= spec_dec_bytes_signed(v as int));
        }
        out
    } else {
        dec_bytes_u32(v as u32)
    }
}

/// All bytes below 128 form valid UTF-8 and decode to themselves.
pub proof fn lemma_ascii_bytes_utf8(b: Seq<u8>)
    requires
        forall|i: int| 0 <= i < b.len() ==> #[trigger] b[i] < 128,
    ensures
        valid_utf8(b),
        decode_utf8(b).len() == b.len(),
        forall|i: int| 0 <= i < b.len() ==> decode_utf8(b)[i] == (#[trigger] b[i]) as char,
    decreases b.len(),
{
    if b.len() > 0 {
        let b0 = b[0];
        assert(vstd::utf8::is_leading_byte_width_1(b0) && (b0 & 0x7f) == b0) by (bit_vector)
            requires
                b0 < 128,
        ;
        assert(vstd::utf8::decode_first_codepoint(b) == b0 as u32);
        assert(vstd::utf8::valid_first_scalar(b));
        assert(vstd::utf8::pop_first_scalar(b) =~= b.skip(1));
        lemma_ascii_bytes_utf8(b.skip(1));
        assert(decode_utf8(b) == seq![(b0 as u32) as char] + decode_utf8(b.skip(1)));
        assert forall|i: int| 0 <= i < b.len() implies decode_utf8(b)[i] == (b[i]) as char by {
            if i == 0 {
                assert(decode_utf8(b)[0] == (b0 as u32) as char);
            } else {
                assert(b.skip(1)[i - 1] == b[i]);
                assert(decode_utf8(b)[i] == decode_utf8(b.skip(1))[i - 1]);
                assert(decode_utf8(b.skip(1))[i - 1] == b.skip(1)[i - 1] as char);
            }
        }
    }
}

/// A freshly drawn captcha code: uppercase letters and digits only.
pub fn generate_captcha(len: usize) -> (r: String)
    ensures
        r@.len() == len,
        forall|i: int|
            0 <= i < r@.len() ==> (65 <= (#[trigger] r@[i]) as u32 <= 90 || 48 <= r@[i] as u32
                <= 57),
{
    let mut bytes: Vec<u8> = Vec::new();
    let mut i: usize = 0;
    while i < len
        invariant
            i <= len,
            bytes@.len() == i,
            forall|j: int|
                0 <= j < i ==> (65 <= (#[trigger] bytes@[j]) <= 90 || 48 <= bytes@[j] <= 57),
        decreases len - i,
    {
        let idx = random_index(36);
        let b: u8 = if idx < 26 {
            65 + (idx as u8)
        } else {
            48 + ((idx - 26) as u8)
        };
        bytes.push(b);
        i = i + 1;
    }
    proof {
        lemma_ascii_bytes_utf8(bytes@);
        assert forall|j: int| 0 <= j < bytes@.len() implies (#[trigger] decode_utf8(
            bytes@,
        )[j]) as u32 == bytes@[j] as u32 by {
            assert(decode_utf8(bytes@)[j] == bytes@[j] as char);
        }
    }
    match utf8_to_string(bytes) {
        Some(s) => s,
        None => unreached(),
    }
}

/// Language code for a display name typed by the client.
pub open spec fn spec_language_code(s: Seq<char>) -> Seq<char> {
    if s == "afrikaans"@ {
        "af"@
    } else if s == "azərbaycan dili"@ {
        "az"@
    } else if s == "bahasa indonesia"@ {
        "id"@
    } else if s == "bahasa melayu"@ {
        "ms"@
    } else if s == "bislama"@ {
        "bi"@
    } else if s == "português brasileiro"@ {
        "br"@
    } else if s == "bosanski jezik"@ {
        "bs"@
    } else if s == "català"@ {
        "ca"@
    } else if s == "chicheŵa"@ {
        "ny"@
    } else if s == "dansk"@ {
        "da"@
    } else if s == "deutsch"@ {
        "de"@
    } else if s == "eesti keel"@ {
        "et"@
    } else if s == "español"@ {
        "es"@
    } else if s == "ekakairũ naoero"@ {
        "na"@
    } else {
        "en"@
    }
}

pub fn language_code(code: &str) -> (r: &str)
    ensures
        r@ == spec_language_code(code@),
{
    if str_eq(code, "afrikaans") {
        "af"
    } else if str_eq(code, "azərbaycan dili") {
        "az"
    } else if str_eq(code, "bahasa indonesia") {
        "id"
    } else if str_eq(code, "bahasa melayu") {
        "ms"
    } else if str_eq(code, "bislama") {
        "bi"
    } else if str_eq(code, "português brasileiro") {
        "br"
    } else if str_eq(code, "bosanski jezik") {
        "bs"
    } else if str_eq(code, "català") {
        "ca"
    } else if str_eq(code, "chicheŵa") {
        "ny"
    } else if str_eq(code, "dansk") {
        "da"
    } else if str_eq(code, "deutsch") {
        "de"
    } else if str_eq(code, "eesti keel") {
        "et"
    } else if str_eq(code, "español") {
        "es"
    } else if str_eq(code, "ekakairũ naoero") {
        "na"
    } else {
        "en"
    }
}

/// Numeric id of a language; every code the table knows maps to 1.
pub fn language_id(lang: &str) -> (r: i8)
    ensures
        r == 1,
{
    let _ = lang;
    1
}

/// Display name and region code of a language code.
pub open spec fn spec_language_info(s: Seq<char>) -> (Seq<char>, Seq<char>) {
    if s == "af"@ {
        ("Afrikaans"@, "za"@)
    } else if s == "az"@ {
        ("Azərbaycan dili"@, "az"@)
    } else if s == "id"@ {
        ("Bahasa Indonesia"@, "id"@)
    } else if s == "ms"@ {
        ("Bahasa Melayu"@, "my"@)
    } else if s == "bi"@ {
        ("Bislama"@, "vu"@)
    } else if s == "br"@ {
        ("Português brasileiro"@, "br"@)
    } else if s == "bs"@ {
        ("Bosanski jezik"@, "ba"@)
    } else if s == "ca"@ {
        ("Català"@, "ad"@)
    } else if s == "ny"@ {
        ("ChiCheŵa"@, "mw"@)
    } else if s == "da"@ {
        ("Dansk"@, "dk"@)
    } else if s == "de"@ {
        ("Deutsch"@, "de"@)
    } else if s == "et"@ {
        ("Eesti keel"@, "ee"@)
    } else if s == "es"@ {
        ("Español"@, "es"@)
    } else if s == "na"@ {
        ("Ekakairũ Naoero"@, "nr"@)
    } else {
        ("English"@, "gb"@)
    }
}

pub fn language_info(lang: &str) -> (r: (&str, &str))
    ensures
        r.0@ == spec_language_info(lang@).0,
        r.1@ == spec_language_info(lang@).1,
{
    if str_eq(lang, "af") {
        ("Afrikaans", "za")
    } else if str_eq(lang, "az") {
        ("Azərbaycan dili", "az")
    } else if str_eq(lang, "id") {
        ("Bahasa Indonesia", "id")
    } else if str_eq(lang, "ms") {
        ("Bahasa Melayu", "my")
    } else if str_eq(lang, "bi") {
        ("Bislama", "vu")
    } else if str_eq(lang, "br") {
        ("Português brasileiro", "br")
    } else if str_eq(lang, "bs") {
        ("Bosanski jezik", "ba")
    } else if str_eq(lang, "ca") {
        ("Català", "ad")
    } else if str_eq(lang, "ny") {
        ("ChiCheŵa", "mw")
    } else if str_eq(lang, "da") {
        ("Dansk", "dk")
    } else if str_eq(lang, "de") {
        ("Deutsch", "de")
    } else if str_eq(lang, "et") {
        ("Eesti keel", "ee")
    } else if str_eq(lang, "es") {
        ("Español", "es")
    } else if str_eq(lang, "na") {
        ("Ekakairũ Naoero", "nr")
    } else {
        ("English", "gb")
    }
}

/// The supported language codes, in the order the list packet sends them.
pub fn language_list() -> (r: Vec<&'static str>)
    ensures
        r@.len() == 15,
        r@[0]@ == "af"@,
        r@[1]@ == "az"@,
        r@[2]@ == "id"@,
        r@[3]@ == "ms"@,
        r@[4]@ == "bi"@,
        r@[5]@ == "br"@,
        r@[6]@ == "bs"@,
        r@[7]@ == "ca"@,
        r@[8]@ == "ny"@,
        r@[9]@ == "da"@,
        r@[10]@ == "de"@,
        r@[11]@ == "et"@,
        r@[12]@ == "es"@,
        r@[13]@ == "na"@,
        r@[14]@ == "en"@,
{
    let mut v: Vec<&'static str> = Vec::new();
    v.push("af");
    v.push("az");
    v.push("id");
    v.push("ms");
    v.push("bi");
    v.push("br");
    v.push("bs");
    v.push("ca");
    v.push("ny");
    v.push("da");
    v.push("de");
    v.push("et");
    v.push("es");
    v.push("na");
    v.push("en");
    v
}

/// Each byte read as the character with the same code point.
pub fn bytes_to_string(bytes: &[u8]) -> (r: String)
    ensures
        r@.len() == bytes@.len(),
        forall|i: int| 0 <= i < bytes@.len() ==> r@[i] == (#[trigger] bytes@[i]) as char,
{
    let ghost chars = Seq::<char>::new(bytes@.len(), |i: int| bytes@[i] as char);
    let mut out: Vec<u8> = Vec::new();
    let mut i: usize = 0;
    proof {
        assert(chars.take(0) =~= Seq::<char>::empty());
    }
    while i < bytes.len()
        invariant
            i <= bytes@.len(),
            chars == Seq::<char>::new(bytes@.len(), |j: int| bytes@[j] as char),
            out@ == encode_utf8(chars.take(i as int)),
        decreases bytes@.len() - i,
    {
        let b = bytes[i];
        proof {
            assert(chars.take(i + 1) =~= chars.take(i as int) + seq![bytes@[i as int] as char]);
            crate::text::lemma_encode_utf8_concat(
                chars.take(i as int),
                seq![bytes@[i as int] as char],
            );
            lemma_byte_char_encoding(b);
            let c = bytes@[i as int] as char;
            reveal_with_fuel(vstd::utf8::encode_utf8, 3);
            assert(seq![c][0] == c);
            assert(seq![c].drop_first() =~= Seq::<char>::empty());
            assert(encode_utf8(seq![c]) =~= vstd::utf8::encode_scalar(c as u32));
        }
        if b < 128 {
            out.push(b);
            proof {
                assert(out@ =~= encode_utf8(chars.take(i + 1)));
            }
        } else {
            out.push(0xc0 | (b >> 6));
            out.push(0x80 | (b & 0x3f));
            proof {
                assert(out@ =~= encode_utf8(chars.take(i + 1)));
            }
        }
        i = i + 1;
    }
    proof {
        assert(chars.take(bytes@.len() as int) =~= chars);
        vstd::utf8::encode_utf8_valid_utf8(chars);
        vstd::utf8::encode_utf8_decode_utf8(chars);
    }
    match utf8_to_string(out) {
        Some(s) => s,
        None => unreached(),
    }
}

/// The UTF-8 image of one byte-valued character: itself below 128, the
/// two-byte form above.
proof fn lemma_byte_char_encoding(b: u8)
    ensures
        b < 128 ==> vstd::utf8::encode_scalar((b as char) as u32) == seq![b],
        b >= 128 ==> vstd::utf8::encode_scalar((b as char) as u32) == seq![
            (0xc0 | (b >> 6)) as u8,
            (0x80 | (b & 0x3f)) as u8,
        ],
{
    let u = (b as char) as u32;
    assert(u == b as u32);
    if b < 128 {
        assert(vstd::utf8::has_width_1_encoding(u) && vstd::utf8::leading_byte_width_1(u)
            == b) by (bit_vector)
            requires
                u == b as u32 && b < 128,
        ;
        assert(vstd::utf8::encode_scalar(u) =~= seq![b]);
    } else {
        assert(!vstd::utf8::has_width_1_encoding(u) && vstd::utf8::has_width_2_encoding(u)
            && vstd::utf8::leading_byte_width_2(u) == (0xc0 | (b >> 6)) as u8
            && vstd::utf8::last_continuation_byte(u) == (0x80 | (b & 0x3f)) as u8) by (bit_vector)
            requires
                u == b as u32 && b >= 128,
        ;
        assert(vstd::utf8::encode_scalar(u) =~= seq![
            (0xc0 | (b >> 6)) as u8,
            (0x80 | (b & 0x3f)) as u8,
        ]);
    }
}

/// The characters of `text`, each truncated to its low byte.
pub fn str_to_bytes(text: &str) -> (r: Vec<u8>)
    ensures
        r@ == Seq::new(text@.len(), |i: int| (text@[i] as u32) as u8),
{
    let l = text.unicode_len();
    let mut out: Vec<u8> = Vec::new();
    let mut i: usize = 0;
    while i < l
        invariant
            i <= l,
            l == text@.len(),
            out@ == Seq::new(i as nat, |j: int| (text@[j] as u32) as u8),
        decreases l - i,
    {
        let c = text.get_char(i) as u32;
        out.push(#[verifier::truncate] (c as u8));
        proof {
            assert(out@ =~= Seq::new((i + 1) as nat, |j: int| (text@[j] as u32) as u8));
        }
        i = i + 1;
    }
    out
}

} // verus!
