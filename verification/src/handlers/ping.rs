use vstd::prelude::*;

use crate::bytearray::ByteArray;
use crate::server::{spec_registry_frame, Server};

verus! {

/// Answers a keep-alive ping: rate-limited echo of the ping counter and an
/// alternating flag, stepping the counter modulo its window.
pub fn handle(server: &mut Server, conn: u64, now: u128)
    requires
        old(server).wf(),
    ensures
        final(server).wf(),
        spec_registry_frame(*old(server), *final(server)),
        forall|j: int|
            0 <= j < old(server).clients@.len() && (#[trigger] old(server).clients@[j]).conn
                == conn ==> {
                let c0 = old(server).clients@[j];
                let c1 = final(server).clients@[j];
                if now >= c0.ping.1 && now - c0.ping.1 >= 5 {
                    &&& c1.ping.1 == now
                    &&& c1.last_ping == !c0.last_ping
                    &&& c1.ping.0 == (if c0.ping.0 >= 30 {
                        0u8
                    } else {
                        (c0.ping.0 + 1) as u8
                    })
                    &&& (!c0.is_closed ==> c1.queue() == c0.queue().push(
                        crate::framer::spec_frame(
                            crate::tokens::PING.0,
                            crate::tokens::PING.1,
                            seq![c0.ping.0, 1u8],
                        ),
                    ) || c1.queue() == c0.queue().push(
                        crate::framer::spec_frame(
                            crate::tokens::PING.0,
                            crate::tokens::PING.1,
                            seq![c0.ping.0, 0u8],
                        ),
                    ))
                } else {
                    c1 == c0
                }
            },
{
    let ci = match crate::session::find_conn(&server.clients, conn) {
        Some(i) => i,
        None => {
            return ;
        },
    };
    proof {
        assert forall|j: int|
            0 <= j < old(server).clients@.len() && (#[trigger] old(server).clients@[j]).conn
                == conn implies j == ci as int by {
            if j != ci {
                assert(old(server).clients@[j].conn != old(server).clients@[ci as int].conn);
            }
        }
    }
    let (count, stamp) = server.clients[ci].ping;
    if now >= stamp && now - stamp >= 5 {
        {
            let c = &mut server.clients[ci];
            c.ping.1 = now;
            c.last_ping = !c.last_ping;
        }
        proof {
            assert forall|j: int|
                0 <= j < server.clients@.len() implies (server.clients@[j] == (#[trigger] old(
                server,
            ).clients@[j]) || (server.clients@[j].wf() && server.clients@[j].id == old(
                server,
            ).clients@[j].id && server.clients@[j].conn == old(server).clients@[j].conn)) by {}
            crate::server::lemma_clients_frame(old(server).clients@, server.clients@);
        }
        let flag = server.clients[ci].last_ping;
        let b = ByteArray::new().write_u8(count).write_bool(flag);
        proof {
            if flag {
                assert(b@ =~= seq![count, 1u8]);
            } else {
                assert(b@ =~= seq![count, 0u8]);
            }
        }
        let ghost cs1 = server.clients@;
        {
            let c = &mut server.clients[ci];
            c.send_data(crate::tokens::PING, b);
        }
        proof {
            assert forall|j: int|
                0 <= j < server.clients@.len() implies (server.clients@[j] == (#[trigger] cs1[j])
                || (server.clients@[j].wf() && server.clients@[j].id == cs1[j].id
                && server.clients@[j].conn == cs1[j].conn)) by {}
            crate::server::lemma_clients_frame(cs1, server.clients@);
        }
        let ghost cs2 = server.clients@;
        {
            let c = &mut server.clients[ci];
            c.ping.0 = if c.ping.0 >= 30 {
                0
            } else {
                c.ping.0 + 1
            };
        }
        proof {
            assert forall|j: int|
                0 <= j < server.clients@.len() implies (server.clients@[j] == (#[trigger] cs2[j])
                || (server.clients@[j].wf() && server.clients@[j].id == cs2[j].id
                && server.clients@[j].conn == cs2[j].conn)) by {}
            crate::server::lemma_clients_frame(cs2, server.clients@);
            let t = ci as int;
            if !old(server).clients@[t].is_closed {
                if flag {
                    assert(server.clients@[t].queue() =~= old(server).clients@[t].queue().push(
                        crate::framer::spec_frame(
                            crate::tokens::PING.0,
                            crate::tokens::PING.1,
                            seq![count, 1u8],
                        ),
                    ));
                } else {
                    assert(server.clients@[t].queue() =~= old(server).clients@[t].queue().push(
                        crate::framer::spec_frame(
                            crate::tokens::PING.0,
                            crate::tokens::PING.1,
                            seq![count, 0u8],
                        ),
                    ));
                }
            }
        }
    }
}

} // verus!
