use vstd::prelude::*;

use crate::bytearray::ByteArray;
use crate::server::{spec_registry_frame, Server};

verus! {

/// Relays a movement update: records the reported position and velocity on
/// the session (positions rescaled to the map grid) and echoes the update to
/// every other member of the room.
pub fn handle(server: &mut Server, conn: u64, data: &mut ByteArray)
    requires
        old(server).wf(),
    ensures
        final(server).wf(),
        spec_registry_frame(*old(server), *final(server)),
        old(data)@.len() < 21 ==> *final(server) == *old(server),
        forall|t: int|
            old(data)@.len() >= 21 && 0 <= t < old(server).clients@.len() && (#[trigger] old(server).clients@[t]).conn == conn ==> {
                let px = crate::bytearray::u32_of_be(old(data)@.subrange(6, 10));
                let py = crate::bytearray::u32_of_be(old(data)@.subrange(10, 14));
                &&& final(server).clients@[t].position_x == (px as int) * 800 / 2700
                &&& final(server).clients@[t].position_y == (py as int) * 800 / 2700
                &&& final(server).clients@[t].speed_x == crate::bytearray::u16_of_be(
                    old(data)@.subrange(14, 16),
                )
                &&& final(server).clients@[t].speed_y == crate::bytearray::u16_of_be(
                    old(data)@.subrange(16, 18),
                )
                &&& final(server).clients@[t].is_jumping == (old(data)@[18] != 0)
                &&& ((old(data)@[4] != 0 || old(data)@[5] != 0) ==> final(server).clients@[t].is_moving_right == (old(data)@[4] != 0) && final(server).clients@[t].is_moving_left == (old(data)@[5] != 0))
            },
{
    if data.len() < 21 {
        return ;
    }
    let round_code = data.read_i32();
    let is_moving_right = data.read_bool();
    let is_moving_left = data.read_bool();
    let position_x = data.read_u32();
    let position_y = data.read_u32();
    let speed_x = data.read_u16();
    let speed_y = data.read_u16();
    let is_jumping = data.read_bool();
    let jump_img = data.read_i8();
    let portal = data.read_i8();
    let is_angle = data.len() >= 5;
    let angle: i16 = if is_angle {
        data.read_i16()
    } else {
        -1
    };
    let speed_angle: i16 = if is_angle {
        data.read_i16()
    } else {
        -1
    };
    let loc_1: bool = if is_angle {
        data.read_bool()
    } else {
        false
    };
    let ci = match crate::session::find_conn(&server.clients, conn) {
        Some(i) => i,
        None => {
            return ;
        },
    };
    {
        let c = &mut server.clients[ci];
        c.position_x = (position_x as u64) * 800 / 2700;
        c.position_y = (position_y as u64) * 800 / 2700;
        c.speed_x = speed_x;
        c.speed_y = speed_y;
        c.is_jumping = is_jumping;
        if is_moving_right || is_moving_left {
            c.is_moving_right = is_moving_right;
            c.is_moving_left = is_moving_left;
        }
    }
    proof {
        assert forall|j: int|
            0 <= j < server.clients@.len() implies (server.clients@[j] == (#[trigger] old(server).clients@[j]) || (server.clients@[j].wf() && server.clients@[j].id == old(server).clients@[j].id && server.clients@[j].conn == old(server).clients@[j].conn)) by {}
        crate::server::lemma_clients_frame(old(server).clients@, server.clients@);
    }
    let idv = server.clients[ci].id;
    let mut b = ByteArray::new().write_i32(#[verifier::truncate] (idv as i32)).write_i32(
        round_code,
    ).write_bool(is_moving_right).write_bool(is_moving_left).write_u32(position_x).write_u32(
        position_y,
    ).write_u16(speed_x).write_u16(speed_y).write_bool(is_jumping).write_i8(jump_img).write_i8(
        portal,
    );
    if is_angle {
        b = b.write_i16(angle).write_i16(speed_angle).write_bool(loc_1);
    }
    let ri = match crate::server::room_of_conn(server, conn) {
        Some(i) => i,
        None => {
            return ;
        },
    };
    crate::server::broadcast_room_except(server, ri, idv, crate::tokens::PLAYER_MOVEMENT, b);
}

} // verus!
