use vstd::prelude::*;

use crate::server::{spec_registry_frame, Server};

verus! {

/// The keep-alive: a session idle for fifteen minutes is closed; a live one
/// is left exactly as it was.
pub fn handle(server: &mut Server, conn: u64, now: u128)
    requires
        old(server).wf(),
    ensures
        final(server).wf(),
        spec_registry_frame(*old(server), *final(server)),
        forall|j: int|
            0 <= j < old(server).clients@.len() ==> (if (#[trigger] old(server).clients@[j]).conn
                == conn && now >= old(server).clients@[j].last_response && now - old(
                server,
            ).clients@[j].last_response >= 900000 {
                final(server).clients@[j] == (crate::session::Client {
                    is_closed: true,
                    ..old(server).clients@[j]
                })
            } else {
                final(server).clients@[j] == old(server).clients@[j]
            }),
{
    let ci = match crate::session::find_conn(&server.clients, conn) {
        Some(i) => i,
        None => {
            return ;
        },
    };
    proof {
        assert forall|j: int|
            0 <= j < old(server).clients@.len() && (#[trigger] old(server).clients@[j]).conn
                == conn implies j == ci as int by {
            if j != ci {
                assert(old(server).clients@[j].conn != old(server).clients@[ci as int].conn);
            }
        }
    }
    let last = server.clients[ci].last_response;
    if now >= last && now - last >= 900000 {
        server.clients[ci].close();
    }
    proof {
        assert forall|j: int|
            0 <= j < server.clients@.len() implies (server.clients@[j] == (#[trigger] old(
            server,
        ).clients@[j]) || (server.clients@[j].wf() && server.clients@[j].id == old(
            server,
        ).clients@[j].id && server.clients@[j].conn == old(server).clients@[j].conn)) by {}
        crate::server::lemma_clients_frame(old(server).clients@, server.clients@);
    }
}

} // verus!
