use vstd::prelude::*;

use crate::bytearray::ByteArray;
use crate::server::{spec_registry_frame, Server};

verus! {

/// A client reports its death: honoured only when it names the current
/// round, so a stale report from the previous map cannot kill anyone.
pub fn handle(server: &mut Server, conn: u64, data: &mut ByteArray)
    requires
        old(server).wf(),
    ensures
        final(server).wf(),
        spec_registry_frame(*old(server), *final(server)),
        old(data)@.len() < 4 ==> *final(server) == *old(server),
        forall|t: int, r: int|
            old(data)@.len() >= 4 && 0 <= t < old(server).clients@.len() && (#[trigger] old(
                server,
            ).clients@[t]).conn == conn && 0 <= r < old(server).rooms@.len() && old(
                server,
            ).clients@[t].room == Some((#[trigger] old(server).rooms@[r]).id) && old(
                server,
            ).clients@[t].id != 0 ==> {
                let code = crate::bytearray::u32_of_be(old(data)@.take(4)) as i32;
                if code == old(server).rooms@[r].last_round_code as i32 {
                    crate::server::spec_die_effect(
                        *old(server),
                        *final(server),
                        old(server).clients@[t].id,
                        t,
                    )
                } else {
                    *final(server) == *old(server)
                }
            },
{
    if data.len() < 4 {
        return ;
    }
    let round_code = data.read_i32();
    let ci = match crate::session::find_conn(&server.clients, conn) {
        Some(i) => i,
        None => {
            return ;
        },
    };
    proof {
        assert forall|j: int|
            0 <= j < old(server).clients@.len() && (#[trigger] old(server).clients@[j]).conn
                == conn implies j == ci as int by {
            if j != ci {
                assert(old(server).clients@[j].conn != old(server).clients@[ci as int].conn);
            }
        }
    }
    let idv = server.clients[ci].id;
    if idv == 0 {
        return ;
    }
    let rid = match server.clients[ci].room {
        Some(r) => r,
        None => {
            return ;
        },
    };
    let ri = match server.find_room(rid) {
        Some(i) => i,
        None => {
            return ;
        },
    };
    proof {
        assert forall|r: int|
            0 <= r < old(server).rooms@.len() && (#[trigger] old(server).rooms@[r]).id == rid
                implies r == ri as int by {
            assert(old(server).rooms@[r].id == old(server).rooms@[ri as int].id);
            if r != ri {
                assert(false);
            }
        }
    }
    let last = server.rooms[ri].last_round_code as i32;
    if round_code == last {
        proof {
            crate::session::lemma_find_id_characterise(old(server).clients@, idv, ci as int);
        }
        crate::server::die(server, idv);
    }
}

} // verus!
