use bitmice::bytearray::ByteArray;
use bitmice::framer::build_frame;
use bitmice::handlers::{correct_version, login, set_language};
use bitmice::server::{handle_client, player_disconnect, Server};
use bitmice::session::Client;

fn fresh_server() -> Server {
    Server::new("WKvjvHsJiT", 818)
}

fn connect(server: &mut Server) -> u64 {
    let client = Client::new(String::from("127.0.0.1:1"));
    handle_client(server, client)
}

fn conn_index(server: &Server, conn: u64) -> usize {
    let mut i = 0;
    while server.clients[i].conn != conn {
        i += 1;
    }
    i
}

#[test]
fn version_handshake_accepts_configured_values() {
    let mut server = fresh_server();
    let conn = connect(&mut server);
    correct_version::apply(&mut server, conn, 818, "WKvjvHsJiT", "EN", 4321);
    let ci = conn_index(&server, conn);
    assert!(server.clients[ci].version_validated);
    assert_ne!(server.clients[ci].auth_key, 0);
    assert!(!server.clients[ci].is_closed);
    // version ack, banner and image packets were queued
    assert_eq!(server.clients[ci].outbound.len(), 3);
}

#[test]
fn version_handshake_rejects_mismatch() {
    let mut server = fresh_server();
    let conn = connect(&mut server);
    correct_version::apply(&mut server, conn, 616, "WKvjvHsJiT", "EN", 4321);
    let ci = conn_index(&server, conn);
    assert!(server.clients[ci].is_closed);
    assert!(server.clients[ci].outbound.is_empty());

    let conn2 = connect(&mut server);
    correct_version::apply(&mut server, conn2, 818, "wrong", "EN", 4321);
    let ci2 = conn_index(&server, conn2);
    assert!(server.clients[ci2].is_closed);
}

#[test]
fn duplicate_login_is_rejected() {
    let mut server = fresh_server();
    let conn1 = connect(&mut server);
    login::apply(
        &mut server,
        conn1,
        String::from("alice"),
        String::from("hunter2"),
        String::from("village1"),
        0,
        0,
    );
    let ci1 = conn_index(&server, conn1);
    assert_eq!(server.clients[ci1].id, 1);
    assert_eq!(server.clients[ci1].name, "alice");

    let conn2 = connect(&mut server);
    login::apply(
        &mut server,
        conn2,
        String::from("alice"),
        String::from("other"),
        String::from(""),
        0,
        0,
    );
    let ci2 = conn_index(&server, conn2);
    // the second connection was never registered
    assert_eq!(server.clients[ci2].id, 0);
    assert_eq!(server.clients[ci2].name, "");
    assert_eq!(server.last_player_id, 1);
    // and it received exactly the already-connected result
    let expected_payload = ByteArray::new()
        .write_i8(1)
        .write_utf("alice")
        .write_utf("other");
    let expected = build_frame(26, 12, &expected_payload);
    assert_eq!(server.clients[ci2].outbound.len(), 1);
    assert_eq!(server.clients[ci2].outbound[0].as_bytes(), expected.as_bytes());
}

#[test]
fn short_identity_is_rejected() {
    let mut server = fresh_server();
    let conn = connect(&mut server);
    login::apply(
        &mut server,
        conn,
        String::from("ab"),
        String::from("pw"),
        String::from(""),
        0,
        0,
    );
    let ci = conn_index(&server, conn);
    assert_eq!(server.clients[ci].id, 0);
    let expected_payload = ByteArray::new().write_i8(2).write_utf("ab").write_utf("pw");
    let expected = build_frame(26, 12, &expected_payload);
    assert_eq!(server.clients[ci].outbound[0].as_bytes(), expected.as_bytes());
}

#[test]
fn guest_login_scenario() {
    let mut server = fresh_server();
    let conn = connect(&mut server);
    correct_version::apply(&mut server, conn, 818, "WKvjvHsJiT", "EN", 999);
    let ci = conn_index(&server, conn);
    let token = server.clients[ci].auth_key;
    assert!(token != 0);

    login::apply(
        &mut server,
        conn,
        String::from("alice"),
        String::new(),
        String::new(),
        token as u32,
        0,
    );
    let ci = conn_index(&server, conn);
    assert!(server.clients[ci].is_guest);
    assert_eq!(server.clients[ci].id, 1);
    assert_eq!(server.clients[ci].priv_level, 0);
    assert_eq!(server.clients[ci].name, "*alice");
    let rid = server.clients[ci].room.expect("the guest was put into a room");
    let ri = server.find_room(rid).unwrap();
    assert_eq!(server.rooms[ri].name, "\x03[Tutorial] *alice");
    assert!(server.rooms[ri].members.contains(&1));

    // the synthesized room starts its round untimed
    bitmice::server::tick(&mut server, rid, 7, String::new(), 0);
    let ri = server.find_room(rid).unwrap();
    assert_eq!(server.rooms[ri].round_time, 0);
    assert_eq!(server.rooms[ri].map_type, bitmice::room::MapType::Tutorial);
}

#[test]
fn broadcast_excludes_named_member() {
    let mut server = fresh_server();
    for (name, id) in [("ana", 1u32), ("bob", 2), ("cyd", 3)] {
        let conn = connect(&mut server);
        let ci = conn_index(&server, conn);
        server.clients[ci].id = id;
        server.clients[ci].name = String::from(name);
    }
    let room = bitmice::room::Room::new(String::from("vanilla1"), String::from("en"));
    let rid = server.add_room(room);
    let ri = server.find_room(rid).unwrap();
    server.rooms[ri].members = vec![1, 2, 3];

    let frame = ByteArray::new().write_u8(42);
    let room = &server.rooms[ri];
    room.send_data_except(2, &mut server.clients, (4, 9), frame.clone());
    assert_eq!(server.clients[0].outbound.len(), 1);
    assert_eq!(server.clients[1].outbound.len(), 0);
    assert_eq!(server.clients[2].outbound.len(), 1);
    let expected = build_frame(4, 9, &frame);
    assert_eq!(server.clients[0].outbound[0].as_bytes(), expected.as_bytes());

    // excluding an id that is not a member delivers to everyone
    let room = &server.rooms[ri];
    room.send_data_except(77, &mut server.clients, (4, 9), frame);
    assert_eq!(server.clients[1].outbound.len(), 1);
}

#[test]
fn disconnect_removes_session_and_membership() {
    let mut server = fresh_server();
    let conn = connect(&mut server);
    login::apply(
        &mut server,
        conn,
        String::from("dora"),
        String::from("pw"),
        String::from("village7"),
        0,
        0,
    );
    let ci = conn_index(&server, conn);
    let id = server.clients[ci].id;
    let rid = server.clients[ci].room.unwrap();
    let ri = server.find_room(rid).unwrap();
    assert!(server.rooms[ri].members.contains(&id));

    player_disconnect(&mut server, id);
    assert!(server.clients.iter().all(|c| c.id != id));
    let ri = server.find_room(rid).unwrap();
    assert!(!server.rooms[ri].members.contains(&id));
}

#[test]
fn disconnect_notice_reaches_the_other_members() {
    let mut server = fresh_server();
    for (name, id) in [("ana", 5u32), ("bob", 6)] {
        let conn = connect(&mut server);
        let ci = conn_index(&server, conn);
        server.clients[ci].id = id;
        server.clients[ci].name = String::from(name);
    }
    let room = bitmice::room::Room::new(String::from("vanilla1"), String::from("en"));
    let rid = server.add_room(room);
    let ri = server.find_room(rid).unwrap();
    server.rooms[ri].members = vec![5, 6];
    server.clients[0].room = Some(rid);
    server.clients[1].room = Some(rid);

    player_disconnect(&mut server, 5);
    assert!(server.clients.iter().all(|c| c.id != 5));
    let ri = server.find_room(rid).unwrap();
    assert!(!server.rooms[ri].members.contains(&5));
    assert!(server.rooms[ri].members.contains(&6));
    // the survivor got the legacy disconnect notice naming the leaver
    let payload = ByteArray::new()
        .write_u16(7)
        .write_u8(1)
        .write_u8(8)
        .write_u8(7)
        .write_u32(5);
    let expected = build_frame(1, 1, &payload);
    let bi = server.clients.iter().position(|c| c.id == 6).unwrap();
    assert_eq!(server.clients[bi].outbound.len(), 1);
    assert_eq!(server.clients[bi].outbound[0].as_bytes(), expected.as_bytes());
}

#[test]
fn vanished_connection_is_removed_before_login() {
    let mut server = fresh_server();
    let conn = connect(&mut server);
    assert!(server.clients.iter().any(|c| c.conn == conn));
    bitmice::server::player_disconnect_conn(&mut server, conn);
    assert!(server.clients.iter().all(|c| c.conn != conn));
}

#[test]
fn set_language_resolves_through_case_folding() {
    let mut server = fresh_server();
    let conn = connect(&mut server);
    let payload = ByteArray::new().write_utf("AF");
    let mut data = payload;
    set_language::handle(&mut server, conn, &mut data);
    let ci = conn_index(&server, conn);
    // the reply names the region za, which only the folded code reaches
    let expected_payload = ByteArray::new()
        .write_utf("za")
        .write_utf("gb")
        .write_i16(0)
        .write_bool(false)
        .write_bool(true)
        .write_utf("");
    let expected = build_frame(176, 5, &expected_payload);
    assert_eq!(server.clients[ci].outbound.len(), 1);
    assert_eq!(server.clients[ci].outbound[0].as_bytes(), expected.as_bytes());
}

#[test]
fn set_language_counts_bytes_not_characters() {
    let mut server = fresh_server();
    let conn = connect(&mut server);
    // one character, two bytes: resolved through the region table, not the
    // display-name table a one-character code would reach
    let payload = ByteArray::new().write_utf("\u{c9}");
    let mut data = payload;
    set_language::handle(&mut server, conn, &mut data);
    let ci = conn_index(&server, conn);
    let expected_payload = ByteArray::new()
        .write_utf("gb")
        .write_utf("gb")
        .write_i16(0)
        .write_bool(false)
        .write_bool(true)
        .write_utf("");
    let expected = build_frame(176, 5, &expected_payload);
    assert_eq!(server.clients[ci].outbound.len(), 1);
    assert_eq!(server.clients[ci].outbound[0].as_bytes(), expected.as_bytes());
}

#[test]
fn room_change_request_moves_the_session() {
    let mut server = fresh_server();
    let conn = connect(&mut server);
    login::apply(
        &mut server,
        conn,
        String::from("erik"),
        String::from("pw"),
        String::from("village1"),
        0,
        0,
    );
    let ci = conn_index(&server, conn);
    let first_room = server.clients[ci].room.unwrap();

    let payload = ByteArray::new()
        .write_utf("en")
        .write_utf("music5")
        .write_bool(false);
    let mut data = payload;
    bitmice::handlers::enter_room::handle(&mut server, conn, &mut data, 0);
    let ci = conn_index(&server, conn);
    let new_room = server.clients[ci].room.unwrap();
    assert_ne!(new_room, first_room);
    let ri = server.find_room(new_room).unwrap();
    assert_eq!(server.rooms[ri].name, "en-music5");
}

#[test]
fn policy_probe_short_circuits_dispatch() {
    let mut server = fresh_server();
    let conn = connect(&mut server);
    let action = bitmice::handlers::process_chunk(
        &mut server,
        conn,
        b"junk<policy-file-request/>junk".to_vec(),
        0,
    );
    assert!(matches!(action, bitmice::handlers::DispatchAction::PolicyRequest));
    let xml = bitmice::handlers::policy_response();
    assert!(xml.starts_with(b"<cross-domain-policy>"));
}
