use vstd::prelude::*;

use crate::bytearray::ByteArray;
use crate::server::{spec_registry_frame, Server};

verus! {

/// A client reports its ping counter: the session records it; nothing else
/// moves.
pub fn handle(server: &mut Server, conn: u64, data: &mut ByteArray)
    requires
        old(server).wf(),
    ensures
        final(server).wf(),
        spec_registry_frame(*old(server), *final(server)),
        old(data)@.len() < 1 ==> *final(server) == *old(server),
        forall|j: int|
            old(data)@.len() >= 1 && 0 <= j < old(server).clients@.len() ==> (if (#[trigger] old(
                server,
            ).clients@[j]).conn == conn {
                final(server).clients@[j] == (crate::session::Client {
                    ping: (old(data)@[0], old(server).clients@[j].ping.1),
                    ..old(server).clients@[j]
                })
            } else {
                final(server).clients@[j] == old(server).clients@[j]
            }),
{
    if data.len() < 1 {
        return ;
    }
    let ping_count = data.read_u8();
    let ci = match crate::session::find_conn(&server.clients, conn) {
        Some(i) => i,
        None => {
            return ;
        },
    };
    proof {
        assert forall|j: int|
            0 <= j < old(server).clients@.len() && (#[trigger] old(server).clients@[j]).conn
                == conn implies j == ci as int by {
            if j != ci {
                assert(old(server).clients@[j].conn != old(server).clients@[ci as int].conn);
            }
        }
    }
    {
        let c = &mut server.clients[ci];
        c.ping.0 = ping_count;
    }
    proof {
        assert forall|j: int|
            0 <= j < server.clients@.len() implies (server.clients@[j] == (#[trigger] old(
            server,
        ).clients@[j]) || (server.clients@[j].wf() && server.clients@[j].id == old(
            server,
        ).clients@[j].id && server.clients@[j].conn == old(server).clients@[j].conn)) by {}
        crate::server::lemma_clients_frame(old(server).clients@, server.clients@);
    }
}

} // verus!
