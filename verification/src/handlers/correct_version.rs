use vstd::prelude::*;

use crate::bytearray::ByteArray;
use crate::server::{spec_registry_frame, Server};
use crate::text::{str_eq, to_uppercase};

verus! {

/// A length-prefixed text stands whole at the head of these bytes.
pub open spec fn spec_utf_ok(d: Seq<u8>) -> bool {
    &&& d.len() >= 2
    &&& 2 + ByteArray::spec_utf_len(d) <= d.len()
    &&& vstd::utf8::valid_utf8(ByteArray::spec_utf_body(d))
}

/// The text at the head of these bytes.
pub open spec fn spec_utf_text(d: Seq<u8>) -> Seq<char> {
    vstd::utf8::decode_utf8(ByteArray::spec_utf_body(d))
}

/// What follows the text at the head of these bytes.
pub open spec fn spec_utf_rest(d: Seq<u8>) -> Seq<u8> {
    d.skip(2 + ByteArray::spec_utf_len(d))
}

/// The handshake decodes: a version word, then language, key and
/// standalone-flag texts.
pub open spec fn spec_handshake_ok(d: Seq<u8>) -> bool {
    &&& d.len() >= 2
    &&& spec_utf_ok(d.skip(2))
    &&& spec_utf_ok(spec_utf_rest(d.skip(2)))
    &&& spec_utf_ok(spec_utf_rest(spec_utf_rest(d.skip(2))))
}

/// The handshake's version word.
pub open spec fn spec_handshake_version(d: Seq<u8>) -> i16 {
    crate::bytearray::u16_of_be(d.take(2)) as i16
}

/// The handshake's language, upper-cased, or empty when oversized.
pub open spec fn spec_handshake_lang(d: Seq<u8>) -> Seq<char> {
    let up = crate::text::upper_of(spec_utf_text(d.skip(2)));
    if vstd::utf8::encode_utf8(up).len() <= 1000 {
        up
    } else {
        Seq::<char>::empty()
    }
}

/// The handshake's shared key.
pub open spec fn spec_handshake_ckey(d: Seq<u8>) -> Seq<char> {
    spec_utf_text(spec_utf_rest(d.skip(2)))
}

/// The version handshake: checks the protocol version and shared key
/// against the configuration, closing the session on a mismatch and issuing
/// its auth token on a match; the token itself is freshly drawn, so only
/// its existence is promised.
pub fn handle(server: &mut Server, conn: u64, data: &mut ByteArray)
    requires
        old(server).wf(),
    ensures
        final(server).wf(),
        spec_registry_frame(*old(server), *final(server)),
        !spec_handshake_ok(old(data)@) ==> *final(server) == *old(server),
        spec_handshake_ok(old(data)@) ==> exists|t: i32|
            1 <= t && #[trigger] spec_handshake_decision(
                *old(server),
                *final(server),
                conn,
                spec_handshake_version(old(data)@),
                spec_handshake_ckey(old(data)@),
                spec_handshake_lang(old(data)@),
                t,
            ),
{
    if data.len() < 2 {
        return ;
    }
    let version = data.read_i16();
    let lang = match data.try_read_utf() {
        Some(s) => s,
        None => {
            return ;
        },
    };
    let ckey = match data.try_read_utf() {
        Some(s) => s,
        None => {
            return ;
        },
    };
    let _stand = match data.try_read_utf() {
        Some(s) => s,
        None => {
            return ;
        },
    };
    let lang_up = to_uppercase(lang.as_str());
    proof {
        reveal_strlit("");
        assert(""@ =~= Seq::<char>::empty());
    }
    let lang_sane: &str = if lang_up.as_str().as_bytes().len() <= 1000 {
        lang_up.as_str()
    } else {
        ""
    };
    let token = crate::utils::random_auth_key();
    proof {
        assert(spec_handshake_ok(old(data)@));
        assert(version == spec_handshake_version(old(data)@));
        assert(ckey@ == spec_handshake_ckey(old(data)@));
        assert(lang_sane@ == spec_handshake_lang(old(data)@));
    }
    apply(server, conn, version, ckey.as_str(), lang_sane, token);
}

/// The version-ack payload: a player count, the language twice, the issued
/// token, and a trailing flag.
pub open spec fn spec_ack_payload(lang: Seq<char>, token: i32) -> Seq<u8> {
    crate::bytearray::u32_be(0) + crate::bytearray::utf_wire(lang) + crate::bytearray::utf_wire(
        lang,
    ) + crate::bytearray::u32_be(token as u32) + crate::bytearray::bool_byte(false)
}

/// The cosmetic banner payload.
pub open spec fn spec_banner_payload() -> Seq<u8> {
    seq![1u8, 2u8, 1u8, 0u8]
}

/// The login-image payload.
pub open spec fn spec_image_payload() -> Seq<u8> {
    crate::bytearray::utf_wire("x_noel2014.jpg"@)
}

/// The decision half of the handshake, taking the freshly drawn token as an
/// argument: exactly a configured version and key validate the session,
/// record the (nonzero) token, and queue the ack echoing it followed by the
/// two cosmetic packets; anything else closes the session with no reply.
#[verifier::rlimit(100)]
#[verifier::spinoff_prover]
pub fn apply(server: &mut Server, conn: u64, version: i16, ckey: &str, lang: &str, token: i32)
    requires
        old(server).wf(),
        token >= 1,
        vstd::utf8::encode_utf8(lang@).len() <= 1000,
    ensures
        final(server).wf(),
        spec_registry_frame(*old(server), *final(server)),
        spec_handshake_decision(
            *old(server),
            *final(server),
            conn,
            version,
            ckey@,
            lang@,
            token,
        ),
{
    apply_inner(server, conn, version, ckey, lang, token)
}

/// What the handshake decision does to the session behind the connection:
/// exactly a configured version and key validate it, record the token, and
/// queue the ack with the two cosmetic packets; anything else closes it
/// with no reply.
pub open spec fn spec_handshake_decision(
    o: Server,
    n: Server,
    conn: u64,
    version: i16,
    ckey: Seq<char>,
    lang: Seq<char>,
    token: i32,
) -> bool {
    forall|j: int|
        0 <= j < o.clients@.len() && (#[trigger] o.clients@[j]).conn == conn ==> (if version
            == o.version as i16 && ckey == o.ckey@ {
            &&& n.clients@[j].version_validated
            &&& n.clients@[j].auth_key == token
            &&& n.clients@[j].is_closed == o.clients@[j].is_closed
            &&& (!o.clients@[j].is_closed ==> n.clients@[j].queue() == o.clients@[j].queue()
                + seq![
                crate::framer::spec_frame(
                    crate::tokens::CORRECT_VERSION.0,
                    crate::tokens::CORRECT_VERSION.1,
                    spec_ack_payload(lang, token),
                ),
                crate::framer::spec_frame(
                    crate::tokens::BANNER_LOGIN.0,
                    crate::tokens::BANNER_LOGIN.1,
                    spec_banner_payload(),
                ),
                crate::framer::spec_frame(
                    crate::tokens::IMAGE_LOGIN.0,
                    crate::tokens::IMAGE_LOGIN.1,
                    spec_image_payload(),
                ),
            ])
        } else {
            &&& n.clients@[j].is_closed
            &&& n.clients@[j].queue() == o.clients@[j].queue()
            &&& n.clients@[j].version_validated == o.clients@[j].version_validated
            &&& n.clients@[j].auth_key == o.clients@[j].auth_key
        })
}

/// The decision half of the handshake, with the drawn token as an
/// argument.
#[verifier::rlimit(100)]
#[verifier::spinoff_prover]
fn apply_inner(server: &mut Server, conn: u64, version: i16, ckey: &str, lang: &str, token: i32)
    requires
        old(server).wf(),
        token >= 1,
        vstd::utf8::encode_utf8(lang@).len() <= 1000,
    ensures
        final(server).wf(),
        spec_registry_frame(*old(server), *final(server)),
        forall|j: int|
            0 <= j < old(server).clients@.len() && (#[trigger] old(server).clients@[j]).conn
                == conn ==> (if version == old(server).version as i16 && ckey@ == old(
                server,
            ).ckey@ {
                &&& final(server).clients@[j].version_validated
                &&& final(server).clients@[j].auth_key == token
                &&& final(server).clients@[j].is_closed == old(server).clients@[j].is_closed
                &&& (!old(server).clients@[j].is_closed ==> final(server).clients@[j].queue()
                    == old(server).clients@[j].queue() + seq![
                    crate::framer::spec_frame(
                        crate::tokens::CORRECT_VERSION.0,
                        crate::tokens::CORRECT_VERSION.1,
                        spec_ack_payload(lang@, token),
                    ),
                    crate::framer::spec_frame(
                        crate::tokens::BANNER_LOGIN.0,
                        crate::tokens::BANNER_LOGIN.1,
                        spec_banner_payload(),
                    ),
                    crate::framer::spec_frame(
                        crate::tokens::IMAGE_LOGIN.0,
                        crate::tokens::IMAGE_LOGIN.1,
                        spec_image_payload(),
                    ),
                ])
            } else {
                &&& final(server).clients@[j].is_closed
                &&& final(server).clients@[j].queue() == old(server).clients@[j].queue()
                &&& final(server).clients@[j].version_validated == old(
                    server,
                ).clients@[j].version_validated
                &&& final(server).clients@[j].auth_key == old(server).clients@[j].auth_key
            }),
{
    let ci = match crate::session::find_conn(&server.clients, conn) {
        Some(i) => i,
        None => {
            return ;
        },
    };
    proof {
        assert forall|j: int|
            0 <= j < old(server).clients@.len() && (#[trigger] old(server).clients@[j]).conn
                == conn implies j == ci as int by {
            if j != ci {
                assert(old(server).clients@[j].conn != old(server).clients@[ci as int].conn);
            }
        }
    }
    let expected = server.version as i16;
    if !(version == expected && str_eq(ckey, server.ckey.as_str())) {
        server.clients[ci].close();
        proof {
            assert forall|j: int|
                0 <= j < server.clients@.len() implies (server.clients@[j] == (#[trigger] old(
                server,
            ).clients@[j]) || (server.clients@[j].wf() && server.clients@[j].id == old(
                server,
            ).clients@[j].id && server.clients@[j].conn == old(server).clients@[j].conn)) by {}
            crate::server::lemma_clients_frame(old(server).clients@, server.clients@);
        }
        return ;
    }
    {
        let c = &mut server.clients[ci];
        c.auth_key = token;
        c.version_validated = true;
    }
    proof {
        assert forall|j: int|
            0 <= j < server.clients@.len() implies (server.clients@[j] == (#[trigger] old(
            server,
        ).clients@[j]) || (server.clients@[j].wf() && server.clients@[j].id == old(
            server,
        ).clients@[j].id && server.clients@[j].conn == old(server).clients@[j].conn)) by {}
        crate::server::lemma_clients_frame(old(server).clients@, server.clients@);
    }
    let ghost q0 = server.clients@[ci as int].queue();
    let ack = ByteArray::new().write_i32(0).write_utf(lang).write_utf(lang).write_i32(
        token,
    ).write_bool(false);
    proof {
        assert(ack@ =~= spec_ack_payload(lang@, token));
    }
    crate::server::send_to_conn(server, conn, crate::tokens::CORRECT_VERSION, ack);
    let ghost cs1 = server.clients@;
    let banner = ByteArray::new().write_i8(1).write_i8(2).write_i8(1).write_bool(false);
    proof {
        assert(banner@ =~= spec_banner_payload());
    }
    crate::server::send_to_conn(server, conn, crate::tokens::BANNER_LOGIN, banner);
    let ghost cs2 = server.clients@;
    proof {
        reveal_strlit("x_noel2014.jpg");
        crate::text::lemma_encode_utf8_len("x_noel2014.jpg"@);
    }
    let image = ByteArray::new().write_utf("x_noel2014.jpg");
    proof {
        assert(image@ =~= spec_image_payload());
    }
    crate::server::send_to_conn(server, conn, crate::tokens::IMAGE_LOGIN, image);
    proof {
        let t = ci as int;
        if !old(server).clients@[t].is_closed {
            assert(server.clients@[t].queue() =~= old(server).clients@[t].queue() + seq![
                crate::framer::spec_frame(
                    crate::tokens::CORRECT_VERSION.0,
                    crate::tokens::CORRECT_VERSION.1,
                    spec_ack_payload(lang@, token),
                ),
                crate::framer::spec_frame(
                    crate::tokens::BANNER_LOGIN.0,
                    crate::tokens::BANNER_LOGIN.1,
                    spec_banner_payload(),
                ),
                crate::framer::spec_frame(
                    crate::tokens::IMAGE_LOGIN.0,
                    crate::tokens::IMAGE_LOGIN.1,
                    spec_image_payload(),
                ),
            ]);
        }
    }
}

} // verus!
