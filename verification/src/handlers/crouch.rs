use vstd::prelude::*;

use crate::bytearray::ByteArray;
use crate::server::{spec_registry_frame, Server};

verus! {

/// Relays a crouch state change to the whole room.
pub fn handle(server: &mut Server, conn: u64, data: &mut ByteArray)
    requires
        old(server).wf(),
    ensures
        final(server).wf(),
        spec_registry_frame(*old(server), *final(server)),
        old(data)@.len() < 1 ==> *final(server) == *old(server),
        forall|t: int, r: int|
            old(data)@.len() >= 1 && 0 <= t < old(server).clients@.len() && (#[trigger] old(
                server,
            ).clients@[t]).conn == conn && 0 <= r < old(server).rooms@.len() && old(
                server,
            ).clients@[t].room == Some((#[trigger] old(server).rooms@[r]).id) ==> (forall|j: int|
                0 <= j < old(server).clients@.len() ==> (if old(server).rooms@[
                    r
                ].members@.contains((#[trigger] old(server).clients@[j]).id) {
                    crate::room::spec_delivery(
                        old(server).clients@[j],
                        final(server).clients@[j],
                        crate::framer::spec_frame(
                            crate::tokens::CROUCH.0,
                            crate::tokens::CROUCH.1,
                            crate::bytearray::u32_be(old(server).clients@[t].id) + seq![
                                old(data)@[0],
                                0u8,
                            ],
                        ),
                    )
                } else {
                    final(server).clients@[j] == old(server).clients@[j]
                })),
{
    if data.len() < 1 {
        return ;
    }
    let crouch = data.read_i8();
    let ci = match crate::session::find_conn(&server.clients, conn) {
        Some(i) => i,
        None => {
            return ;
        },
    };
    proof {
        assert forall|j: int|
            0 <= j < old(server).clients@.len() && (#[trigger] old(server).clients@[j]).conn
                == conn implies j == ci as int by {
            if j != ci {
                assert(old(server).clients@[j].conn != old(server).clients@[ci as int].conn);
            }
        }
    }
    let idv = server.clients[ci].id;
    let rid = match server.clients[ci].room {
        Some(r) => r,
        None => {
            return ;
        },
    };
    let ri = match server.find_room(rid) {
        Some(i) => i,
        None => {
            return ;
        },
    };
    proof {
        assert forall|r: int|
            0 <= r < old(server).rooms@.len() && (#[trigger] old(server).rooms@[r]).id == rid
                implies r == ri as int by {
            assert(old(server).rooms@[r].id == old(server).rooms@[ri as int].id);
            if r != ri {
                assert(false);
            }
        }
        assert(((idv as i32) as u32) == idv) by (bit_vector);
        let b0 = old(data)@[0];
        assert(((b0 as i8) as u8) == b0) by (bit_vector);
    }
    let b = ByteArray::new().write_i32(#[verifier::truncate] (idv as i32)).write_i8(
        crouch,
    ).write_i8(0);
    proof {
        assert(b@ =~= crate::bytearray::u32_be(idv) + seq![old(data)@[0], 0u8]);
    }
    crate::server::broadcast_room(server, ri, crate::tokens::CROUCH, b);
}

} // verus!
