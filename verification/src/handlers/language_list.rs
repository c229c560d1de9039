use vstd::prelude::*;

use crate::bytearray::ByteArray;
use crate::server::{spec_registry_frame, Server};
use crate::text::str_eq;
use crate::utils::language_info;

verus! {

/// One language-table entry: its code, display name and region, or
/// nothing when it is the session's own code.
pub open spec fn spec_list_entry(lang: Seq<char>, code: Seq<char>) -> Seq<u8> {
    if code == lang {
        Seq::empty()
    } else {
        crate::bytearray::utf_wire(code) + crate::bytearray::utf_wire(
            crate::utils::spec_language_info(code).0,
        ) + crate::bytearray::utf_wire(crate::utils::spec_language_info(code).1)
    }
}

/// The whole list payload: the count, the session's own language with its
/// name and region, then every other table entry in a fixed order.
pub open spec fn spec_list_payload(lang: Seq<char>) -> Seq<u8> {
    crate::bytearray::u16_be(15) + crate::bytearray::utf_wire(lang) + crate::bytearray::utf_wire(
        crate::utils::spec_language_info(lang).0,
    ) + crate::bytearray::utf_wire(crate::utils::spec_language_info(lang).1) + spec_list_entry(
        lang,
        "af"@,
    ) + spec_list_entry(lang, "az"@) + spec_list_entry(lang, "id"@) + spec_list_entry(lang, "ms"@)
        + spec_list_entry(lang, "bi"@) + spec_list_entry(lang, "br"@) + spec_list_entry(lang, "bs"@)
        + spec_list_entry(lang, "ca"@) + spec_list_entry(lang, "ny"@) + spec_list_entry(lang, "da"@)
        + spec_list_entry(lang, "de"@) + spec_list_entry(lang, "et"@) + spec_list_entry(lang, "es"@)
        + spec_list_entry(lang, "na"@) + spec_list_entry(lang, "en"@)
}

/// Sends the supported-language list: the session's own language first,
/// then every other code with its display name and region.
#[verifier::rlimit(100)]
#[verifier::spinoff_prover]
pub fn handle(server: &mut Server, conn: u64)
    requires
        old(server).wf(),
    ensures
        final(server).wf(),
        spec_registry_frame(*old(server), *final(server)),
        forall|j: int|
            0 <= j < old(server).clients@.len() && (#[trigger] old(server).clients@[j]).conn
                == conn && !old(server).clients@[j].is_closed ==> final(server).clients@[
                j
            ].queue() == old(server).clients@[j].queue().push(
                crate::framer::spec_frame(
                    crate::tokens::LANGUAGE_LIST.0,
                    crate::tokens::LANGUAGE_LIST.1,
                    spec_list_payload(old(server).clients@[j].lang@),
                ),
            ),
{
    let ci = match crate::session::find_conn(&server.clients, conn) {
        Some(i) => i,
        None => {
            return ;
        },
    };
    let lang = server.clients[ci].lang.clone();
    proof {
        assert(server.clients@[ci as int].wf());
    }
    let own = language_info(lang.as_str());
    proof {
        lemma_info_bounds(lang@);
    }
    proof {
        reveal_strlit("af");
        reveal_strlit("az");
        reveal_strlit("id");
        reveal_strlit("ms");
        reveal_strlit("bi");
        reveal_strlit("br");
        reveal_strlit("bs");
        reveal_strlit("ca");
        reveal_strlit("ny");
        reveal_strlit("da");
        reveal_strlit("de");
        reveal_strlit("et");
        reveal_strlit("es");
        reveal_strlit("na");
        reveal_strlit("en");
        crate::text::lemma_encode_utf8_len("af"@);
        crate::text::lemma_encode_utf8_len("az"@);
        crate::text::lemma_encode_utf8_len("id"@);
        crate::text::lemma_encode_utf8_len("ms"@);
        crate::text::lemma_encode_utf8_len("bi"@);
        crate::text::lemma_encode_utf8_len("br"@);
        crate::text::lemma_encode_utf8_len("bs"@);
        crate::text::lemma_encode_utf8_len("ca"@);
        crate::text::lemma_encode_utf8_len("ny"@);
        crate::text::lemma_encode_utf8_len("da"@);
        crate::text::lemma_encode_utf8_len("de"@);
        crate::text::lemma_encode_utf8_len("et"@);
        crate::text::lemma_encode_utf8_len("es"@);
        crate::text::lemma_encode_utf8_len("na"@);
        crate::text::lemma_encode_utf8_len("en"@);
    }
    let mut b = ByteArray::new().write_i16(15).write_utf(lang.as_str()).write_utf(own.0).write_utf(
        own.1,
    );
    let ghost hdr = crate::bytearray::u16_be(15) + crate::bytearray::utf_wire(lang@)
        + crate::bytearray::utf_wire(crate::utils::spec_language_info(lang@).0)
        + crate::bytearray::utf_wire(crate::utils::spec_language_info(lang@).1);
    proof {
        assert(b@ =~= hdr);
    }
    b = push_entry(b, lang.as_str(), "af");
    b = push_entry(b, lang.as_str(), "az");
    b = push_entry(b, lang.as_str(), "id");
    b = push_entry(b, lang.as_str(), "ms");
    b = push_entry(b, lang.as_str(), "bi");
    b = push_entry(b, lang.as_str(), "br");
    b = push_entry(b, lang.as_str(), "bs");
    b = push_entry(b, lang.as_str(), "ca");
    b = push_entry(b, lang.as_str(), "ny");
    b = push_entry(b, lang.as_str(), "da");
    b = push_entry(b, lang.as_str(), "de");
    b = push_entry(b, lang.as_str(), "et");
    b = push_entry(b, lang.as_str(), "es");
    b = push_entry(b, lang.as_str(), "na");
    b = push_entry(b, lang.as_str(), "en");
    proof {
        assert(b@ == hdr + spec_list_entry(lang@, "af"@) + spec_list_entry(lang@, "az"@)
            + spec_list_entry(lang@, "id"@) + spec_list_entry(lang@, "ms"@) + spec_list_entry(
            lang@,
            "bi"@,
        ) + spec_list_entry(lang@, "br"@) + spec_list_entry(lang@, "bs"@) + spec_list_entry(
            lang@,
            "ca"@,
        ) + spec_list_entry(lang@, "ny"@) + spec_list_entry(lang@, "da"@) + spec_list_entry(
            lang@,
            "de"@,
        ) + spec_list_entry(lang@, "et"@) + spec_list_entry(lang@, "es"@) + spec_list_entry(
            lang@,
            "na"@,
        ) + spec_list_entry(lang@, "en"@));
        assert(b@ == spec_list_payload(lang@));
        assert(lang@ == old(server).clients@[ci as int].lang@);
    }
    crate::server::send_to_conn(server, conn, crate::tokens::LANGUAGE_LIST, b);
}

/// Appends one language-table entry unless it is the session's own code.
fn push_entry(b: ByteArray, lang: &str, code: &str) -> (r: ByteArray)
    requires
        b@.len() < 0xffff0000,
        encode_utf8_short(code@),
    ensures
        r@.len() <= b@.len() + 150,
        r@ == b@ + spec_list_entry(lang@, code@),
{
    if str_eq(code, lang) {
        return b;
    }
    let info = language_info(code);
    proof {
        lemma_info_bounds(code@);
    }
    b.write_utf(code).write_utf(info.0).write_utf(info.1)
}

/// A language code of at most a few bytes.
pub open spec fn encode_utf8_short(s: Seq<char>) -> bool {
    vstd::utf8::encode_utf8(s).len() <= 10
}

/// Display names and region codes of the language table are short.
pub proof fn lemma_info_bounds(s: Seq<char>)
    ensures
        vstd::utf8::encode_utf8(crate::utils::spec_language_info(s).0).len() <= 100,
        vstd::utf8::encode_utf8(crate::utils::spec_language_info(s).1).len() <= 20,
{
    let info = crate::utils::spec_language_info(s);
    crate::text::lemma_encode_utf8_len(info.0);
    crate::text::lemma_encode_utf8_len(info.1);
    reveal_strlit("Afrikaans");
    reveal_strlit("Azərbaycan dili");
    reveal_strlit("Bahasa Indonesia");
    reveal_strlit("Bahasa Melayu");
    reveal_strlit("Bislama");
    reveal_strlit("Português brasileiro");
    reveal_strlit("Bosanski jezik");
    reveal_strlit("Català");
    reveal_strlit("ChiCheŵa");
    reveal_strlit("Dansk");
    reveal_strlit("Deutsch");
    reveal_strlit("Eesti keel");
    reveal_strlit("Español");
    reveal_strlit("Ekakairũ Naoero");
    reveal_strlit("English");
    reveal_strlit("za");
    reveal_strlit("az");
    reveal_strlit("id");
    reveal_strlit("my");
    reveal_strlit("vu");
    reveal_strlit("br");
    reveal_strlit("ba");
    reveal_strlit("ad");
    reveal_strlit("mw");
    reveal_strlit("dk");
    reveal_strlit("de");
    reveal_strlit("ee");
    reveal_strlit("es");
    reveal_strlit("nr");
    reveal_strlit("gb");
}

} // verus!
