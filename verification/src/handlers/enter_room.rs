use vstd::prelude::*;

use crate::bytearray::ByteArray;
use crate::server::Server;
use crate::text::str_eq;

verus! {

/// A room-change request: an auto-select or empty name joins the
/// recommended room for the community; otherwise the request is validated
/// (same room, editor rooms, and names over 64 characters are refused) and
/// the session moves to the community-prefixed room.
pub fn handle(server: &mut Server, conn: u64, data: &mut ByteArray, now: u128)
    requires
        old(server).wf(),
    ensures
        final(server).wf(),
        (forall|j: int|
            0 <= j < old(server).clients@.len() ==> (#[trigger] old(server).clients@[j]).conn
                != conn) ==> *final(server) == *old(server),
        (exists|j: int|
            0 <= j < old(server).clients@.len() && (#[trigger] old(server).clients@[j]).conn
                == conn && old(server).clients@[j].id == 0) ==> *final(server) == *old(server),
{
    let community = match data.try_read_utf() {
        Some(s) => s,
        None => {
            return ;
        },
    };
    let room_name = match data.try_read_utf() {
        Some(s) => s,
        None => {
            return ;
        },
    };
    if data.len() < 1 {
        return ;
    }
    let auto_select = data.read_bool();
    let ci = match crate::session::find_conn(&server.clients, conn) {
        Some(i) => i,
        None => {
            return ;
        },
    };
    let idv = server.clients[ci].id;
    if idv == 0 {
        return ;
    }
    if auto_select || room_name.as_str().is_empty() {
        if server.last_room_id >= u64::MAX {
            return ;
        }
        let community_sane: &str = if community.as_str().as_bytes().len() <= 100 {
            community.as_str()
        } else {
            ""
        };
        proof {
            reveal_strlit("");
            assert(""@ =~= Seq::<char>::empty());
        }
        let ri = server.get_recommended_room(community_sane);
        let rid = server.rooms[ri].id;
        let target = server.rooms[ri].name.clone();
        proof {
            assert(server.rooms@[ri as int].wf());
        }
        if target.as_str().len() > 1000 {
            return ;
        }
        crate::server::add_client(server, rid, idv, now);
        crate::server::enter_room(server, idv, target.as_str());
        crate::server::start_play(server, idv, now);
        return ;
    }
    let ri = match crate::server::room_of_conn(server, conn) {
        Some(i) => i,
        None => {
            return ;
        },
    };
    let same = str_eq(room_name.as_str(), server.rooms[ri].name.as_str()) && str_eq(
        server.clients[ci].lang.as_str(),
        server.rooms[ri].lang.as_str(),
    );
    let editor = server.rooms[ri].map_type == crate::room::MapType::Editor;
    let name_bytes = room_name.as_str().as_bytes().len();
    if !(same || editor || name_bytes > 64) {
        let community_sane: &str = if community.as_str().as_bytes().len() <= 100 {
            community.as_str()
        } else {
            ""
        };
        proof {
            reveal_strlit("");
            reveal_strlit("-");
            assert(""@ =~= Seq::<char>::empty());
            assert("-"@ =~= seq!['-']);
            crate::text::lemma_encode_utf8_len("-"@);
        }
        let target = crate::server::join_name(community_sane, room_name.as_str());
        crate::server::enter_room(server, idv, target.as_str());
        let ci2 = match crate::session::find_conn(&server.clients, conn) {
            Some(i) => i,
            None => {
                return ;
            },
        };
        let rid2 = match server.clients[ci2].room {
            Some(r) => r,
            None => {
                return ;
            },
        };
        crate::server::add_client(server, rid2, idv, now);
        crate::server::start_play(server, idv, now);
    }
}

} // verus!
