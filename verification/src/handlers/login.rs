use vstd::prelude::*;
use vstd::string::{StrSliceExecFns, StringExecFns};
use vstd::utf8::encode_utf8;

use crate::bytearray::ByteArray;
use crate::server::{spec_registry_frame, Server};
use crate::session::Client;
use crate::text::starts_with_str;
use crate::utils::OldData;

verus! {

/// The login request: identity, password, loader url, starting room, and
/// the echoed auth token, parsed off the wire.
pub fn handle(server: &mut Server, conn: u64, data: &mut ByteArray, now: u128)
    requires
        old(server).wf(),
    ensures
        final(server).wf(),
{
    let identity = match data.try_read_utf() {
        Some(s) => s,
        None => {
            return ;
        },
    };
    let password = match data.try_read_utf() {
        Some(s) => s,
        None => {
            return ;
        },
    };
    let _url = match data.try_read_utf() {
        Some(s) => s,
        None => {
            return ;
        },
    };
    let start_room = match data.try_read_utf() {
        Some(s) => s,
        None => {
            return ;
        },
    };
    if data.len() < 4 {
        return ;
    }
    let echo = data.read_u32();
    if identity.as_str().as_bytes().len() > 65535 || password.as_str().as_bytes().len() > 65535 {
        return ;
    }
    proof {
        assert(encode_utf8(identity@).len() <= 65535);
        assert(encode_utf8(password@).len() <= 65535);
    }
    apply(server, conn, identity, password, start_room, echo, now);
}

/// The login-result frame for a code and the echoed credentials.
pub open spec fn spec_result_frame(code: i8, identity: Seq<char>, password: Seq<char>) -> Seq<
    u8,
> {
    crate::framer::spec_frame(
        crate::tokens::LOGIN_RESULT.0,
        crate::tokens::LOGIN_RESULT.1,
        seq![code as u8] + crate::bytearray::utf_wire(identity) + crate::bytearray::utf_wire(
            password,
        ),
    )
}

/// Whether some session already answers to this identity.
pub open spec fn spec_identity_taken(s: Server, name: Seq<char>) -> bool {
    exists|k: int|
        0 <= k < s.clients@.len() && crate::server::spec_match_name(
            #[trigger] s.clients@[k],
            name,
        )
}

/// The login decision. A wrong token echo closes the session. An identity
/// under 3 bytes (the protocol's floor) or over 900 bytes (this server's
/// cap, so the guest-starred name and its full form always fit their wire
/// fields) is answered with the invalid-identity result. An
/// identity already connected is answered with the already-connected result
/// and nothing is registered: no id is allocated and no session or room
/// state changes beyond that one reply. An empty password makes the session
/// a guest: starred name, privilege zero, and a synthesized tutorial room.
#[verifier::rlimit(100)]
#[verifier::spinoff_prover]
pub fn apply(
    server: &mut Server,
    conn: u64,
    identity: String,
    password: String,
    start_room: String,
    echo: u32,
    now: u128,
)
    requires
        old(server).wf(),
        encode_utf8(identity@).len() <= 65535,
        encode_utf8(password@).len() <= 65535,
    ensures
        final(server).wf(),
        final(server).ckey == old(server).ckey,
        final(server).version == old(server).version,
        final(server).clients@.len() == old(server).clients@.len(),
        !spec_auth_ok(*old(server), conn, echo) ==> forall|j: int|
            0 <= j < old(server).clients@.len() && (#[trigger] old(server).clients@[j]).conn
                == conn ==> (final(server).clients@[j].is_closed && final(server).clients@[j].queue() == old(server).clients@[j].queue() && final(server).clients@[j].id == old(server).clients@[j].id),
        spec_auth_ok(*old(server), conn, echo) && !(3 <= encode_utf8(identity@).len() <= 900)
            ==> (final(server).last_player_id == old(server).last_player_id && final(server).rooms
            == old(server).rooms && (forall|j: int|
            0 <= j < old(server).clients@.len() && (#[trigger] old(server).clients@[j]).conn
                == conn ==> (final(server).clients@[j].id == old(server).clients@[j].id && (!old(server).clients@[j].is_closed ==> final(server).clients@[j].queue() == old(server).clients@[j].queue().push(spec_result_frame(2, identity@, password@)))))),
        spec_auth_ok(*old(server), conn, echo) && 3 <= encode_utf8(identity@).len() <= 900
            && spec_identity_taken(*old(server), identity@) ==> {
            &&& final(server).last_player_id == old(server).last_player_id
            &&& (forall|j: int|
                0 <= j < final(server).clients@.len() ==> ((#[trigger] final(server).clients@[
                    j
                ]).id == old(server).clients@[j].id && final(server).clients@[j].name == old(server).clients@[j].name))
            &&& final(server).rooms == old(server).rooms
            &&& (forall|j: int|
                0 <= j < old(server).clients@.len() && (#[trigger] old(server).clients@[j]).conn
                    == conn && !old(server).clients@[j].is_closed ==> final(server).clients@[j].queue() == old(server).clients@[j].queue().push(
                    spec_result_frame(1, identity@, password@),
                ))
        },
        spec_auth_ok(*old(server), conn, echo) && 3 <= encode_utf8(identity@).len() <= 900
            && !spec_identity_taken(*old(server), identity@) && old(server).last_player_id
            < u32::MAX ==> forall|j: int|
            0 <= j < old(server).clients@.len() && (#[trigger] old(server).clients@[j]).conn
                == conn ==> (final(server).clients@[j].id == old(server).last_player_id + 1 && (
            password@.len() == 0 ==> (final(server).clients@[j].is_guest && final(server).clients@[j].priv_level == 0 && final(server).clients@[j].name@ == (
            if crate::text::spec_starts_with(identity@, seq!['+']) {
                identity@
            } else {
                seq!['*'] + identity@
            }))) && (password@.len() != 0 ==> final(server).clients@[j].name@ == identity@)),
{
    let ci = match crate::session::find_conn(&server.clients, conn) {
        Some(i) => i,
        None => {
            return ;
        },
    };
    let auth = server.clients[ci].auth_key;
    if (#[verifier::truncate] (echo as i32)) != auth {
        server.clients[ci].close();
        proof {
            lemma_one_touched(old(server).clients@, server.clients@);
        }
        return ;
    }
    let id_bytes = identity.as_str().as_bytes().len();
    if id_bytes < 3 || id_bytes > 900 {
        let reply = result_packet(2, identity.as_str(), password.as_str());
        crate::server::send_to_conn(server, conn, crate::tokens::LOGIN_RESULT, reply);
        return ;
    }
    if server.get_player(identity.as_str()).is_some() {
        let reply = result_packet(1, identity.as_str(), password.as_str());
        let ghost pre = server.clients@;
        crate::server::send_to_conn(server, conn, crate::tokens::LOGIN_RESULT, reply);
        proof {
            assert forall|j: int|
                0 <= j < server.clients@.len() implies ((#[trigger] server.clients@[j]).id == pre[
                j
            ].id && server.clients@[j].name == pre[j].name) by {
                if pre[j].conn == conn {
                    assert(crate::room::spec_delivery(
                        pre[j],
                        server.clients@[j],
                        crate::framer::spec_frame(
                            crate::tokens::LOGIN_RESULT.0,
                            crate::tokens::LOGIN_RESULT.1,
                            reply@,
                        ),
                    ));
                } else {
                    assert(server.clients@[j] == pre[j]);
                }
            }
        }
        return ;
    }
    register_session(server, conn, identity, password, start_room, now);
}

/// Guest synthesis and id assignment: an empty password makes the session
/// a guest with a starred name and a synthesized tutorial room, and every
/// accepted login gets the next monotonic id.
#[verifier::rlimit(100)]
#[verifier::spinoff_prover]
fn assign_identity(
    server: &mut Server,
    conn: u64,
    identity: String,
    password: String,
    start_room: String,
    now: u128,
) -> (r: Option<(u32, String)>)
    requires
        old(server).wf(),
        3 <= encode_utf8(identity@).len() <= 900,
    ensures
        final(server).wf(),
        final(server).ckey == old(server).ckey,
        final(server).version == old(server).version,
        final(server).clients@.len() == old(server).clients@.len(),
        final(server).rooms == old(server).rooms,
        r is Some ==> r.unwrap().0 >= 1,
        (exists|j: int|
            0 <= j < old(server).clients@.len() && (#[trigger] old(server).clients@[j]).conn
                == conn) && old(server).last_player_id < u32::MAX ==> r is Some,
        r is Some ==> final(server).last_player_id == old(server).last_player_id + 1,
        r is Some ==> forall|j: int|
            0 <= j < old(server).clients@.len() && (#[trigger] old(server).clients@[j]).conn
                == conn ==> (final(server).clients@[j].id == old(server).last_player_id + 1 && (
            password@.len() == 0 ==> (final(server).clients@[j].is_guest
                && final(server).clients@[j].priv_level == 0 && final(server).clients@[j].name@
                == (if crate::text::spec_starts_with(identity@, seq!['+']) {
                identity@
            } else {
                seq!['*'] + identity@
            }))) && (password@.len() != 0 ==> final(server).clients@[j].name@ == identity@)),
{
    let ci = match crate::session::find_conn(&server.clients, conn) {
        Some(i) => i,
        None => {
            return None;
        },
    };
    proof {
        assert forall|j: int|
            0 <= j < old(server).clients@.len() && (#[trigger] old(server).clients@[j]).conn
                == conn implies j == ci as int by {
            if j != ci {
                assert(old(server).clients@[j].conn != old(server).clients@[ci as int].conn);
            }
        }
        reveal_strlit("+");
        reveal_strlit("*");
        assert("+"@ =~= seq!['+']);
        assert("*"@ =~= seq!['*']);
    }
    let mut identity = identity;
    let mut start_room = start_room;
    let guest = password.as_str().is_empty();
    if guest {
        if !starts_with_str(identity.as_str(), "+") {
            let ghost before = identity@;
            proof {
                crate::text::lemma_encode_utf8_concat("*"@, identity@);
                crate::text::lemma_encode_utf8_len("*"@);
            }
            identity = String::from_str("*").concat(identity.as_str());
            proof {
                assert(identity@ =~= seq!['*'] + before);
            }
        }
        proof {
            reveal_strlit("\x03[Tutorial] ");
            crate::text::lemma_encode_utf8_concat("\x03[Tutorial] "@, identity@);
            crate::text::lemma_encode_utf8_len("\x03[Tutorial] "@);
        }
        start_room = String::from_str("\x03[Tutorial] ").concat(identity.as_str());
        {
            let c = &mut server.clients[ci];
            c.priv_level = 0;
            c.time_played = #[verifier::truncate] (now as u64);
            c.is_guest = true;
        }
        proof {
            lemma_one_touched(old(server).clients@, server.clients@);
        }
    }
    if server.last_player_id >= u32::MAX {
        return None;
    }
    let id = server.new_player_id();
    let ghost cs1 = server.clients@;
    {
        let c = &mut server.clients[ci];
        c.name = identity;
        c.id = id;
    }
    proof {
        assert forall|j: int| 0 <= j < server.clients@.len() implies ((#[trigger] server.clients@[
            j
        ]).wf() && server.clients@[j].conn == cs1[j].conn && server.clients@[j].id
            <= server.last_player_id) by {
            if j != ci {
                assert(server.clients@[j] == cs1[j]);
            }
        }
        assert forall|a: int, b: int|
            0 <= a < b < server.clients@.len() implies ((#[trigger] server.clients@[a]).id != (
        #[trigger] server.clients@[b]).id || server.clients@[a].id == 0) by {
            if a != ci && b != ci {
                assert(server.clients@[a] == cs1[a] && server.clients@[b] == cs1[b]);
            } else if a == ci {
                assert(server.clients@[b] == cs1[b]);
                assert(cs1[b].id <= old(server).last_player_id);
            } else {
                assert(server.clients@[a] == cs1[a]);
                assert(cs1[a].id <= old(server).last_player_id);
            }
        }
    }
    Some((id, start_room))
}

/// The accepting half of the login: guest synthesis, id assignment, the
/// identification and confirmation packets, and entry into the starting
/// room.
#[verifier::rlimit(100)]
#[verifier::spinoff_prover]
fn register_session(
    server: &mut Server,
    conn: u64,
    identity: String,
    password: String,
    start_room: String,
    now: u128,
)
    requires
        old(server).wf(),
        3 <= encode_utf8(identity@).len() <= 900,
    ensures
        final(server).wf(),
        final(server).ckey == old(server).ckey,
        final(server).version == old(server).version,
        final(server).clients@.len() == old(server).clients@.len(),
        (exists|j: int|
            0 <= j < old(server).clients@.len() && (#[trigger] old(server).clients@[j]).conn
                == conn) && old(server).last_player_id < u32::MAX ==> forall|j: int|
            0 <= j < old(server).clients@.len() && (#[trigger] old(server).clients@[j]).conn
                == conn ==> (final(server).clients@[j].id == old(server).last_player_id + 1 && (
            password@.len() == 0 ==> (final(server).clients@[j].is_guest
                && final(server).clients@[j].priv_level == 0 && final(server).clients@[j].name@
                == (if crate::text::spec_starts_with(identity@, seq!['+']) {
                identity@
            } else {
                seq!['*'] + identity@
            }))) && (password@.len() != 0 ==> final(server).clients@[j].name@ == identity@)),
{
    let (id, start_room) = match assign_identity(server, conn, identity, password, start_room, now) {
        Some(v) => v,
        None => {
            return ;
        },
    };
    identification(server, conn);
    confirm(server, conn);
    join_start_room(server, conn, id, start_room, now);
}

/// Entry into the starting room and the post-login legacy anchors message.
#[verifier::rlimit(100)]
#[verifier::spinoff_prover]
fn join_start_room(server: &mut Server, conn: u64, id: u32, start_room: String, now: u128)
    requires
        old(server).wf(),
        id >= 1,
    ensures
        final(server).wf(),
        final(server).ckey == old(server).ckey,
        final(server).version == old(server).version,
        final(server).clients@.len() == old(server).clients@.len(),
        crate::server::spec_profile_same(old(server).clients@, final(server).clients@),
{
    proof {
        reveal_strlit("");
        assert(""@ =~= Seq::<char>::empty());
    }
    let sr: &str = if start_room.as_str().as_bytes().len() <= 1000 {
        start_room.as_str()
    } else {
        ""
    };
    crate::server::enter_room(server, id, sr);
    let ci2 = match crate::session::find_conn(&server.clients, conn) {
        Some(i) => i,
        None => {
            return ;
        },
    };
    let rid = match server.clients[ci2].room {
        Some(r) => r,
        None => {
            return ;
        },
    };
    crate::server::add_client(server, rid, id, now);
    let anchors: Vec<OldData> = Vec::new();
    proof {
        reveal_with_fuel(crate::session::spec_old_fields, 2);
        assert(anchors@ =~= Seq::<OldData>::empty());
    }
    let ci3 = match crate::session::find_conn(&server.clients, conn) {
        Some(i) => i,
        None => {
            return ;
        },
    };
    let ghost cs2 = server.clients@;
    server.clients[ci3].send_old_data(crate::tokens::OLD_ANCHORS, anchors);
    proof {
        assert forall|j: int|
            0 <= j < server.clients@.len() implies (server.clients@[j] == (#[trigger] cs2[j]) || (
        server.clients@[j].wf() && server.clients@[j].id == cs2[j].id && server.clients@[j].conn
            == cs2[j].conn && server.clients@[j].name == cs2[j].name && server.clients@[
            j
        ].is_guest == cs2[j].is_guest && server.clients@[j].priv_level == cs2[
            j
        ].priv_level)) by {}
        crate::server::lemma_clients_frame(cs2, server.clients@);
        assert(crate::server::spec_profile_same(old(server).clients@, server.clients@));
    }
}

/// Whether the echoed token matches the one this connection was issued.
pub open spec fn spec_auth_ok(s: Server, conn: u64, echo: u32) -> bool {
    forall|j: int|
        0 <= j < s.clients@.len() && (#[trigger] s.clients@[j]).conn == conn ==> echo as i32
            == s.clients@[j].auth_key
}

/// One session changed in place; everything else kept its value.
proof fn lemma_one_touched(orig: Seq<Client>, cur: Seq<Client>)
    requires
        orig.len() == cur.len(),
        crate::room::unique_nonzero_ids(orig),
        forall|j: int| 0 <= j < orig.len() ==> (#[trigger] orig[j]).wf(),
        forall|j: int|
            0 <= j < orig.len() ==> (cur[j] == orig[j] || ((#[trigger] cur[j]).wf() && cur[j].id
                == orig[j].id && cur[j].conn == orig[j].conn)),
    ensures
        crate::room::unique_nonzero_ids(cur),
        forall|j: int|
            0 <= j < cur.len() ==> (#[trigger] cur[j]).wf() && cur[j].id == orig[j].id
                && cur[j].conn == orig[j].conn,
{
    crate::server::lemma_clients_frame(orig, cur);
}

/// The login-result packet: a result code and the echoed credentials.
fn result_packet(code: i8, identity: &str, password: &str) -> (r: ByteArray)
    requires
        encode_utf8(identity@).len() <= 65535,
        encode_utf8(password@).len() <= 65535,
    ensures
        r@.len() < 0xffffffff,
        r@ == seq![code as u8] + crate::bytearray::utf_wire(identity@) + crate::bytearray::utf_wire(
            password@,
        ),
{
    let r = ByteArray::new().write_i8(code).write_utf(identity).write_utf(password);
    proof {
        assert(r@ =~= seq![code as u8] + crate::bytearray::utf_wire(identity@)
            + crate::bytearray::utf_wire(password@));
    }
    r
}

/// The permission bytes a privilege level earns, in the order they are
/// sent: the threshold table first, then the extra grants.
pub open spec fn spec_perm_bytes(p: i8) -> Seq<u8> {
    (if p >= 0 {
        seq![255u8]
    } else {
        Seq::<u8>::empty()
    }) + (if p >= 1 {
        seq![255u8]
    } else {
        Seq::<u8>::empty()
    }) + (if p >= 2 {
        seq![255u8]
    } else {
        Seq::<u8>::empty()
    }) + (if p >= 3 {
        seq![255u8]
    } else {
        Seq::<u8>::empty()
    }) + (if p >= 4 {
        seq![255u8]
    } else {
        Seq::<u8>::empty()
    }) + (if p >= 5 {
        seq![13u8]
    } else {
        Seq::<u8>::empty()
    }) + (if p >= 6 {
        seq![11u8]
    } else {
        Seq::<u8>::empty()
    }) + (if p >= 7 {
        seq![5u8]
    } else {
        Seq::<u8>::empty()
    }) + (if p >= 8 {
        seq![5u8]
    } else {
        Seq::<u8>::empty()
    }) + (if p >= 9 {
        seq![10u8]
    } else {
        Seq::<u8>::empty()
    }) + (if p >= 7 {
        seq![1u8, 3u8]
    } else {
        Seq::<u8>::empty()
    }) + (if p >= 9 {
        seq![10u8]
    } else {
        Seq::<u8>::empty()
    })
}

/// The identification payload: id, name, play time, language id, the
/// permission bytes, and the moderator flag.
pub open spec fn spec_identification_payload(c: crate::session::Client) -> Seq<u8> {
    crate::bytearray::u32_be(c.id) + crate::bytearray::utf_wire(c.name@)
        + crate::bytearray::u32_be((c.time_played as u32)) + seq![1u8] + crate::bytearray::u32_be(
        c.id,
    ) + crate::bytearray::bool_byte(true) + seq![spec_perm_bytes(c.priv_level).len() as u8]
        + spec_perm_bytes(c.priv_level) + crate::bytearray::bool_byte(c.priv_level >= 9)
        + crate::bytearray::u16_be(255) + crate::bytearray::u16_be(0)
}

/// The identification packet: id, name, play time, language id, the
/// permission bytes computed from the privilege level, and the moderator
/// flag.
#[verifier::rlimit(100)]
#[verifier::spinoff_prover]
pub fn identification(server: &mut Server, conn: u64)
    requires
        old(server).wf(),
    ensures
        final(server).wf(),
        spec_registry_frame(*old(server), *final(server)),
        crate::server::spec_profile_same(old(server).clients@, final(server).clients@),
        forall|j: int|
            0 <= j < old(server).clients@.len() && (#[trigger] old(server).clients@[j]).conn
                == conn && !old(server).clients@[j].is_closed ==> final(server).clients@[j].queue() == old(server).clients@[j].queue().push(
                crate::framer::spec_frame(
                    crate::tokens::PLAYER_IDENTIFICATION.0,
                    crate::tokens::PLAYER_IDENTIFICATION.1,
                    spec_identification_payload(old(server).clients@[j]),
                ),
            ),
{
    let ci = match crate::session::find_conn(&server.clients, conn) {
        Some(i) => i,
        None => {
            return ;
        },
    };
    proof {
        assert forall|j: int|
            0 <= j < old(server).clients@.len() && (#[trigger] old(server).clients@[j]).conn
                == conn implies j == ci as int by {
            if j != ci {
                assert(old(server).clients@[j].conn != old(server).clients@[ci as int].conn);
            }
        }
        assert(server.clients@[ci as int].wf());
    }
    let priv_level = server.clients[ci].priv_level;
    let mut p = ByteArray::new();
    if priv_level >= 0 {
        p = p.write_i8(-1);
    }
    if priv_level >= 1 {
        p = p.write_i8(-1);
    }
    if priv_level >= 2 {
        p = p.write_i8(-1);
    }
    if priv_level >= 3 {
        p = p.write_i8(-1);
    }
    if priv_level >= 4 {
        p = p.write_i8(-1);
    }
    if priv_level >= 5 {
        p = p.write_i8(13);
    }
    if priv_level >= 6 {
        p = p.write_i8(11);
    }
    if priv_level >= 7 {
        p = p.write_i8(5);
    }
    if priv_level >= 8 {
        p = p.write_i8(5);
    }
    if priv_level >= 9 {
        p = p.write_i8(10);
    }
    if priv_level >= 7 {
        p = p.write_i8(1);
        p = p.write_i8(3);
    }
    if priv_level >= 9 {
        p = p.write_i8(10);
    }
    proof {
        assert((-1i8) as u8 == 255) by (bit_vector);
        if priv_level >= 9 {
            assert(p@ =~= spec_perm_bytes(priv_level));
        } else if priv_level >= 8 {
            assert(p@ =~= spec_perm_bytes(priv_level));
        } else if priv_level >= 7 {
            assert(p@ =~= spec_perm_bytes(priv_level));
        } else if priv_level >= 6 {
            assert(p@ =~= spec_perm_bytes(priv_level));
        } else if priv_level >= 5 {
            assert(p@ =~= spec_perm_bytes(priv_level));
        } else if priv_level >= 4 {
            assert(p@ =~= spec_perm_bytes(priv_level));
        } else if priv_level >= 3 {
            assert(p@ =~= spec_perm_bytes(priv_level));
        } else if priv_level >= 2 {
            assert(p@ =~= spec_perm_bytes(priv_level));
        } else if priv_level >= 1 {
            assert(p@ =~= spec_perm_bytes(priv_level));
        } else if priv_level >= 0 {
            assert(p@ =~= spec_perm_bytes(priv_level));
        } else {
            assert(p@ =~= spec_perm_bytes(priv_level));
        }
        assert(p@.len() <= 13);
    }
    let perm_count = p.len() as u8;
    let idv = server.clients[ci].id;
    let name = server.clients[ci].name.clone();
    let time_played = server.clients[ci].time_played;
    let lang = server.clients[ci].lang.clone();
    let lang_id = crate::utils::language_id(lang.as_str());
    let data = ByteArray::new().write_u32(idv).write_utf(name.as_str()).write_u32(
        #[verifier::truncate] (time_played as u32),
    ).write_i8(lang_id).write_u32(idv).write_bool(true).write_u8(perm_count).write_bytes(
        p.as_bytes(),
    ).write_bool(priv_level >= 9).write_u16(255).write_u16(0);
    proof {
        assert(data@ =~= spec_identification_payload(old(server).clients@[ci as int]));
    }
    crate::server::send_to_conn(server, conn, crate::tokens::PLAYER_IDENTIFICATION, data);
}

/// The legacy login-confirmation text: the full name and the session's
/// numbers run together as decimal digits.
pub open spec fn spec_confirm_body(c: crate::session::Client) -> Seq<u8> {
    encode_utf8(c.spec_full_name()) + crate::utils::spec_dec_bytes(c.id as nat)
        + crate::utils::spec_dec_bytes_signed(c.priv_level as int) + crate::utils::spec_dec_bytes(
        30,
    ) + crate::utils::spec_dec_bytes(
        if c.is_guest {
            1
        } else {
            0
        },
    ) + crate::utils::spec_dec_bytes(0)
}

/// The whole confirmation message as the payload of its carrier packet.
pub open spec fn spec_confirm_packet(c: crate::session::Client) -> Seq<u8> {
    crate::bytearray::u16_be((3 + spec_confirm_body(c).len()) as u16) + seq![
        1u8,
        crate::tokens::OLD_LOGIN.0,
        crate::tokens::OLD_LOGIN.1,
    ] + spec_confirm_body(c)
}

/// The four guest-tier capability frames.
pub open spec fn spec_guest_frames() -> Seq<Seq<u8>> {
    seq![
        crate::framer::spec_frame(
            crate::tokens::LOGIN_SOURIS.0,
            crate::tokens::LOGIN_SOURIS.1,
            seq![1u8, 10u8],
        ),
        crate::framer::spec_frame(
            crate::tokens::LOGIN_SOURIS.0,
            crate::tokens::LOGIN_SOURIS.1,
            seq![2u8, 5u8],
        ),
        crate::framer::spec_frame(
            crate::tokens::LOGIN_SOURIS.0,
            crate::tokens::LOGIN_SOURIS.1,
            seq![3u8, 15u8],
        ),
        crate::framer::spec_frame(
            crate::tokens::LOGIN_SOURIS.0,
            crate::tokens::LOGIN_SOURIS.1,
            seq![4u8, 200u8],
        ),
    ]
}

/// The legacy login-confirmation message: the full name and the session's
/// numbers run together as decimal text, followed by the guest-tier
/// capability packets when the session is a guest.
#[verifier::rlimit(100)]
#[verifier::spinoff_prover]
pub fn confirm(server: &mut Server, conn: u64)
    requires
        old(server).wf(),
    ensures
        final(server).wf(),
        spec_registry_frame(*old(server), *final(server)),
        crate::server::spec_profile_same(old(server).clients@, final(server).clients@),
        forall|j: int|
            0 <= j < old(server).clients@.len() && (#[trigger] old(server).clients@[j]).conn
                == conn && !old(server).clients@[j].is_closed && spec_confirm_body(
                old(server).clients@[j],
            ).len() <= 60000 ==> final(server).clients@[j].queue() == old(
                server,
            ).clients@[j].queue() + seq![
                crate::framer::spec_frame(1, 1, spec_confirm_packet(old(server).clients@[j])),
            ] + (if old(server).clients@[j].is_guest {
                spec_guest_frames()
            } else {
                Seq::<Seq<u8>>::empty()
            }),
{
    let ci = match crate::session::find_conn(&server.clients, conn) {
        Some(i) => i,
        None => {
            return ;
        },
    };
    proof {
        assert forall|j: int|
            0 <= j < old(server).clients@.len() && (#[trigger] old(server).clients@[j]).conn
                == conn implies j == ci as int by {
            if j != ci {
                assert(old(server).clients@[j].conn != old(server).clients@[ci as int].conn);
            }
        }
        assert(server.clients@[ci as int].wf());
        crate::session::lemma_full_name_len(&server.clients@[ci as int]);
    }
    let full = server.clients[ci].full_name();
    let idv = server.clients[ci].id;
    let priv_level = server.clients[ci].priv_level;
    let souris = server.clients[ci].is_souris();
    let mut body = vstd::string::StrSliceExecFns::as_bytes_vec(full.as_str());
    let mut digits = crate::utils::dec_bytes_u32(idv);
    body.append(&mut digits);
    let mut digits2 = crate::utils::dec_bytes_i8(priv_level);
    body.append(&mut digits2);
    let mut digits3 = crate::utils::dec_bytes_u32(30);
    body.append(&mut digits3);
    let mut digits4 = crate::utils::dec_bytes_u32(
        if souris {
            1
        } else {
            0
        },
    );
    body.append(&mut digits4);
    let mut digits5 = crate::utils::dec_bytes_u32(0);
    body.append(&mut digits5);
    proof {
        assert(body@ =~= spec_confirm_body(old(server).clients@[ci as int]));
    }
    if body.len() > 60000 {
        return ;
    }
    let p = ByteArray::new().write_u8(1).write_u8(crate::tokens::OLD_LOGIN.0).write_u8(
        crate::tokens::OLD_LOGIN.1,
    ).write_bytes(body.as_slice());
    let data = ByteArray::new().write_u16(p.len() as u16).write_bytes(p.as_bytes());
    proof {
        assert(data@ =~= spec_confirm_packet(old(server).clients@[ci as int]));
    }
    crate::server::send_to_conn(server, conn, (1, 1), data);
    if souris {
        let b1 = ByteArray::new().write_i8(1).write_i8(10);
        proof {
            assert(b1@ =~= seq![1u8, 10u8]);
        }
        crate::server::send_to_conn(server, conn, crate::tokens::LOGIN_SOURIS, b1);
        let b2 = ByteArray::new().write_i8(2).write_i8(5);
        proof {
            assert(b2@ =~= seq![2u8, 5u8]);
        }
        crate::server::send_to_conn(server, conn, crate::tokens::LOGIN_SOURIS, b2);
        let b3 = ByteArray::new().write_i8(3).write_i8(15);
        proof {
            assert(b3@ =~= seq![3u8, 15u8]);
        }
        crate::server::send_to_conn(server, conn, crate::tokens::LOGIN_SOURIS, b3);
        let b4 = ByteArray::new().write_i8(4).write_u8(200);
        proof {
            assert(b4@ =~= seq![4u8, 200u8]);
        }
        crate::server::send_to_conn(server, conn, crate::tokens::LOGIN_SOURIS, b4);
    }
    proof {
        let t = ci as int;
        let c0 = old(server).clients@[t];
        if !c0.is_closed && spec_confirm_body(c0).len() <= 60000 {
            if c0.is_guest {
                assert(server.clients@[t].queue() =~= c0.queue() + seq![
                    crate::framer::spec_frame(1, 1, spec_confirm_packet(c0)),
                ] + spec_guest_frames());
            } else {
                assert(server.clients@[t].queue() =~= c0.queue() + seq![
                    crate::framer::spec_frame(1, 1, spec_confirm_packet(c0)),
                ] + Seq::<Seq<u8>>::empty());
            }
        }
    }
}

} // verus!
