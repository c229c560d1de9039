use vstd::prelude::*;

use crate::bytearray::ByteArray;
use crate::server::Server;

pub mod captcha;
pub mod correct_version;
pub mod crouch;
pub mod death;
pub mod dummy;
pub mod enter_room;
pub mod game_log;
pub mod get_cheese;
pub mod language_list;
pub mod login;
pub mod mouse_movement;
pub mod ping;
pub mod player_ping;
pub mod set_language;
pub mod undefined;

verus! {

/// What the caller must do after a dispatch: nothing more, render a captcha
/// and hand it back, or answer the policy probe and drop the connection.
pub enum DispatchAction {
    Done,
    NeedCaptcha,
    PolicyRequest,
}

/// The token pairs the dispatcher routes to a handler that can move
/// session or room state.
pub open spec fn spec_known_pair(c: u8, cc: u8) -> bool {
    ||| (c == 4 && (cc == 4 || cc == 5 || cc == 9))
    ||| (c == 5 && (cc == 19 || cc == 38))
    ||| (c == 8 && cc == 30)
    ||| (c == 26 && (cc == 8 || cc == 26))
    ||| (c == 28 && (cc == 1 || cc == 6))
    ||| (c == 176 && (cc == 1 || cc == 2))
}

/// Routes one inbound frame to its handler by the token pair; unknown pairs
/// are ignored so newer clients degrade gracefully, and pairs without a
/// state-moving handler leave every session and room exactly as it was.
pub fn parse_tokens(
    server: &mut Server,
    conn: u64,
    tokens: (u8, u8),
    data: ByteArray,
    packet_id: u8,
    now: u128,
) -> (r: DispatchAction)
    requires
        old(server).wf(),
    ensures
        final(server).wf(),
        !(r is PolicyRequest),
        !spec_known_pair(tokens.0, tokens.1) ==> *final(server) == *old(server),
{
    let _ = packet_id;
    let mut data = data;
    match (tokens.0, tokens.1) {
        (4, 4) => {
            mouse_movement::handle(server, conn, &mut data);
            DispatchAction::Done
        },
        (4, 5) => {
            death::handle(server, conn, &mut data);
            DispatchAction::Done
        },
        (4, 9) => {
            crouch::handle(server, conn, &mut data);
            DispatchAction::Done
        },
        (5, 19) => {
            get_cheese::handle(server, conn, &mut data);
            DispatchAction::Done
        },
        (5, 38) => {
            enter_room::handle(server, conn, &mut data, now);
            DispatchAction::Done
        },
        (8, 30) => {
            ping::handle(server, conn, now);
            DispatchAction::Done
        },
        (26, 8) => {
            login::handle(server, conn, &mut data, now);
            DispatchAction::Done
        },
        (26, 20) => DispatchAction::NeedCaptcha,
        (26, 26) => {
            dummy::handle(server, conn, now);
            DispatchAction::Done
        },
        (26, 40) => {
            undefined::handle();
            DispatchAction::Done
        },
        (28, 1) => {
            correct_version::handle(server, conn, &mut data);
            DispatchAction::Done
        },
        (28, 6) => {
            player_ping::handle(server, conn, &mut data);
            DispatchAction::Done
        },
        (28, 17) => {
            let _ = game_log::handle(&mut data);
            DispatchAction::Done
        },
        (176, 1) => {
            set_language::handle(server, conn, &mut data);
            DispatchAction::Done
        },
        (176, 2) => {
            language_list::handle(server, conn);
            DispatchAction::Done
        },
        _ => DispatchAction::Done,
    }
}

/// The fixed cross-domain-policy document sent raw (unframed) to a policy
/// probe.
pub fn policy_response() -> (r: Vec<u8>)
    ensures
        r@ == vstd::utf8::encode_utf8(
            "<cross-domain-policy><allow-access-from domain=\"*\" to-ports=\"*\"/></cross-domain-policy>"@,
        ),
{
    vstd::string::StrSliceExecFns::as_bytes_vec(
        "<cross-domain-policy><allow-access-from domain=\"*\" to-ports=\"*\"/></cross-domain-policy>",
    )
}

/// Handles one raw inbound chunk: a policy probe short-circuits dispatch;
/// otherwise the first frame is split off and routed, updating the session's
/// last-activity time for everything but keep-alives; a chunk without a
/// well-formed frame, or whose frame is too short or names a zero token,
/// changes nothing.
pub fn process_chunk(server: &mut Server, conn: u64, chunk: Vec<u8>, now: u128) -> (r:
    DispatchAction)
    requires
        old(server).wf(),
    ensures
        final(server).wf(),
        r is PolicyRequest ==> crate::framer::spec_contains_bytes(
            chunk@,
            vstd::utf8::encode_utf8("<policy-file-request/>"@),
        ),
        !(r is PolicyRequest) ==> !crate::framer::spec_contains_bytes(
            chunk@,
            vstd::utf8::encode_utf8("<policy-file-request/>"@),
        ),
        !(r is PolicyRequest) && crate::framer::spec_first_frame(chunk@) is None ==> *final(server) == *old(server),
        !(r is PolicyRequest) && (match crate::framer::spec_first_frame(chunk@) {
            Some(f) => f.len() < 3 || f[1] == 0 || f[2] == 0,
            None => false,
        }) ==> *final(server) == *old(server),
{
    if crate::framer::contains_bytes(
        chunk.as_slice(),
        vstd::string::StrSliceExecFns::as_bytes_vec("<policy-file-request/>").as_slice(),
    ) {
        return DispatchAction::PolicyRequest;
    }
    let mut data = ByteArray::with(chunk);
    if data.is_empty() {
        return DispatchAction::Done;
    }
    let mut frame = match crate::framer::parse_frame(&mut data) {
        Some(f) => f,
        None => {
            return DispatchAction::Done;
        },
    };
    if frame.len() < 3 {
        return DispatchAction::Done;
    }
    let packet_id = frame.read_u8();
    let c = frame.read_u8();
    let cc = frame.read_u8();
    if c > 0 && cc > 0 {
        if !(c == 26 && cc == 26) {
            if let Some(ci) = crate::session::find_conn(&server.clients, conn) {
                server.clients[ci].update_last_response(now);
                proof {
                    assert forall|j: int|
                        0 <= j < server.clients@.len() implies (server.clients@[j] == (
                    #[trigger] old(server).clients@[j]) || (server.clients@[j].wf()
                        && server.clients@[j].id == old(server).clients@[j].id
                        && server.clients@[j].conn == old(server).clients@[j].conn)) by {}
                    crate::server::lemma_clients_frame(
                        old(server).clients@,
                        server.clients@,
                    );
                }
            }
        }
        parse_tokens(server, conn, (c, cc), frame, packet_id, now)
    } else {
        DispatchAction::Done
    }
}

} // verus!
