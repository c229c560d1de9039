use vstd::prelude::*;

use crate::bytearray::ByteArray;
use crate::server::{spec_registry_frame, Server};
use crate::text::to_lowercase;
use crate::utils::{language_code, language_info};

verus! {

/// The reply to a language switch: the resolved code, its region, and the
/// fixed trailer, all derived from the case-folded request.
pub open spec fn spec_reply_payload(input: Seq<char>) -> Seq<u8> {
    let folded = crate::text::lower_of(input);
    let lang = if vstd::utf8::encode_utf8(folded).len() == 2 {
        crate::utils::spec_language_info(folded).1
    } else {
        crate::utils::spec_language_code(folded)
    };
    crate::bytearray::utf_wire(lang) + crate::bytearray::utf_wire(
        crate::utils::spec_language_info(lang).1,
    ) + crate::bytearray::u16_be(0) + crate::bytearray::bool_byte(false)
        + crate::bytearray::bool_byte(true) + crate::bytearray::utf_wire(Seq::<char>::empty())
}

/// Switches the session's language: a two-byte request is resolved
/// through the region table, anything longer through the display-name
/// table, and the choice is echoed back.
pub fn handle(server: &mut Server, conn: u64, data: &mut ByteArray)
    requires
        old(server).wf(),
    ensures
        final(server).wf(),
        spec_registry_frame(*old(server), *final(server)),
        forall|j: int|
            (old(data)@.len() >= 2 && 2 + ByteArray::spec_utf_len(old(data)@) <= old(data)@.len()
                && vstd::utf8::valid_utf8(ByteArray::spec_utf_body(old(data)@))) && 0 <= j < old(
                server,
            ).clients@.len() && (#[trigger] old(server).clients@[j]).conn == conn && !old(
                server,
            ).clients@[j].is_closed ==> final(server).clients@[j].queue() == old(
                server,
            ).clients@[j].queue().push(
                crate::framer::spec_frame(
                    crate::tokens::SET_LANGUAGE.0,
                    crate::tokens::SET_LANGUAGE.1,
                    spec_reply_payload(
                        vstd::utf8::decode_utf8(ByteArray::spec_utf_body(old(data)@)),
                    ),
                ),
            ),
{
    let langue_raw = match data.try_read_utf() {
        Some(s) => s,
        None => {
            return ;
        },
    };
    let langue = to_lowercase(langue_raw.as_str());
    let two = langue.as_str().as_bytes().len() == 2;
    let lang: &str = if two {
        language_info(langue.as_str()).1
    } else {
        language_code(langue.as_str())
    };
    proof {
        lemma_lang_short(langue@);
    }
    let info = language_info(lang);
    proof {
        crate::handlers::language_list::lemma_info_bounds(lang@);
        reveal_strlit("");
        assert(""@ =~= Seq::<char>::empty());
    }
    let b = ByteArray::new().write_utf(lang).write_utf(info.1).write_i16(0).write_bool(
        false,
    ).write_bool(true).write_utf("");
    proof {
        assert(b@ =~= spec_reply_payload(langue_raw@));
    }
    crate::server::send_to_conn(server, conn, crate::tokens::SET_LANGUAGE, b);
}

/// Whatever the tables return as a code or region is short.
proof fn lemma_lang_short(s: Seq<char>)
    ensures
        vstd::utf8::encode_utf8(crate::utils::spec_language_code(s)).len() <= 10,
        vstd::utf8::encode_utf8(crate::utils::spec_language_info(s).1).len() <= 20,
{
    crate::text::lemma_encode_utf8_len(crate::utils::spec_language_code(s));
    crate::text::lemma_encode_utf8_len(crate::utils::spec_language_info(s).1);
    reveal_strlit("af");
    reveal_strlit("az");
    reveal_strlit("id");
    reveal_strlit("ms");
    reveal_strlit("bi");
    reveal_strlit("br");
    reveal_strlit("bs");
    reveal_strlit("ca");
    reveal_strlit("ny");
    reveal_strlit("da");
    reveal_strlit("de");
    reveal_strlit("et");
    reveal_strlit("es");
    reveal_strlit("na");
    reveal_strlit("en");
    reveal_strlit("za");
    reveal_strlit("my");
    reveal_strlit("vu");
    reveal_strlit("ba");
    reveal_strlit("ad");
    reveal_strlit("mw");
    reveal_strlit("dk");
    reveal_strlit("ee");
    reveal_strlit("nr");
    reveal_strlit("gb");
}

} // verus!
