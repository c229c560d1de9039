use bitmice::room::{MapType, Room, RoomType};
use bitmice::server::{tick, Server, TickStatus};
use bitmice::session::Client;

fn fresh_server() -> Server {
    Server::new("WKvjvHsJiT", 818)
}

fn join(server: &mut Server, name: &str, id: u32) -> u64 {
    let client = Client::new(String::from("127.0.0.1:1"));
    let conn = bitmice::server::handle_client(server, client);
    let ci = server.clients.len() - 1;
    server.clients[ci].id = id;
    server.clients[ci].name = String::from(name);
    server.clients[ci].is_dead = false;
    conn
}

#[test]
fn round_timer_decrements_until_zero_then_changes_once() {
    let mut server = fresh_server();
    let _conn = join(&mut server, "runner", 1);
    let room = Room::new(String::from("vanilla1"), String::from("en"));
    let rid = server.add_room(room);
    let ri = server.find_room(rid).unwrap();
    server.rooms[ri].members.push(1);
    server.clients[0].room = Some(rid);
    server.rooms[ri].is_new = false;
    server.rooms[ri].can_change_map = true;
    server.rooms[ri].round_time = 3;

    assert!(matches!(tick(&mut server, rid, 7, String::new(), 0), TickStatus::Continued));
    assert_eq!(server.rooms[ri].round_time, 2);
    assert!(matches!(tick(&mut server, rid, 7, String::new(), 0), TickStatus::Continued));
    assert_eq!(server.rooms[ri].round_time, 1);

    let old_round = server.rooms[ri].last_round_code;
    assert!(matches!(tick(&mut server, rid, 7, String::new(), 0), TickStatus::MapChanged));
    // the change reset the timer and advanced the round code exactly once
    assert_eq!(server.rooms[ri].last_round_code, (old_round + 1) % 127);
    assert_eq!(server.rooms[ri].round_time, 120);
    assert!(!server.rooms[ri].can_change_map);

    // the next tick continues the fresh round instead of changing again
    assert!(matches!(tick(&mut server, rid, 7, String::new(), 0), TickStatus::Continued));
    assert_eq!(server.rooms[ri].round_time, 119);
}

#[test]
fn racing_rooms_clamp_the_displayed_timer() {
    let mut server = fresh_server();
    let _conn = join(&mut server, "racer", 1);
    let room = Room::new(String::from("racing9"), String::from("en"));
    let rid = server.add_room(room);
    let ri = server.find_room(rid).unwrap();
    server.rooms[ri].members.push(1);
    server.clients[0].room = Some(rid);
    server.rooms[ri].is_new = false;
    server.rooms[ri].room_type = RoomType::Racing;
    server.rooms[ri].can_change_map = true;
    server.rooms[ri].round_time = 63;

    assert!(matches!(tick(&mut server, rid, 7, String::new(), 0), TickStatus::Continued));
    assert_eq!(server.rooms[ri].round_time, 21);
}

#[test]
fn frozen_rooms_change_maps_at_most_once() {
    let mut server = fresh_server();
    let _conn = join(&mut server, "builder", 1);
    let room = Room::new(String::from("\x03[Tutorial] builder"), String::from("en"));
    let rid = server.add_room(room);
    let ri = server.find_room(rid).unwrap();
    server.rooms[ri].members.push(1);
    server.clients[0].room = Some(rid);

    // first tick: the newly created room performs its single dispatch
    assert!(matches!(tick(&mut server, rid, 7, String::new(), 0), TickStatus::MapChanged));
    assert_eq!(server.rooms[ri].map_type, MapType::Tutorial);
    assert_eq!(server.rooms[ri].map_code, 900);
    assert_eq!(server.rooms[ri].round_time, 0);
    let code_after_first = server.rooms[ri].last_round_code;

    // however many more ticks elapse, the frozen category never changes again
    for _ in 0..5 {
        server.rooms[ri].can_change_map = true;
        server.rooms[ri].round_time = 0;
        assert!(matches!(tick(&mut server, rid, 7, String::new(), 0), TickStatus::Frozen));
        assert_eq!(server.rooms[ri].last_round_code, code_after_first);
        assert_eq!(server.rooms[ri].map_type, MapType::Tutorial);
    }
}

#[test]
fn map_selector_forms() {
    let mut room = Room::new(String::from("vanilla1"), String::from("en"));

    // absent selector: the pool pick is used verbatim
    room.select_map(42, String::from("<C />"));
    assert_eq!(room.map_code, 42);
    assert_eq!(room.map_xml, "<C />");
    assert_eq!(room.map_perma, 22);

    // numeric selector
    room.next_map = String::from("137");
    room.select_map(7, String::new());
    assert_eq!(room.map_code, 137);
    assert_eq!(room.next_map, "-1");

    // specific custom map by id
    room.next_map = String::from("@55");
    room.select_map(7, String::new());
    assert_eq!(room.map_code, 55);
    assert_eq!(room.map_name, "Euzinho");
    assert_eq!(room.map_type, MapType::Custom);
    assert_eq!(room.map_perma, 22);

    // permanent map by number
    room.next_map = String::from("#3");
    room.select_map(7, String::new());
    assert_eq!(room.map_code, -1);
    assert_eq!(room.map_perma, 3);
    assert_eq!(room.map_type, MapType::Perm);

    // raw markup
    room.next_map = String::from("<C><P /></C>");
    room.select_map(7, String::new());
    assert_eq!(room.map_code, 0);
    assert_eq!(room.map_xml, "<C><P /></C>");
    assert_eq!(room.map_type, MapType::Xml);
    assert_eq!(room.map_name, "#Module");
}

#[test]
fn empty_room_timer_stays_put() {
    let mut server = fresh_server();
    let room = Room::new(String::from("\x03[Tutorial] ghost"), String::from("en"));
    let rid = server.add_room(room);
    let ri = server.find_room(rid).unwrap();
    server.rooms[ri].map_type = MapType::Tutorial;
    server.rooms[ri].is_new = false;
    server.rooms[ri].round_time = 5;

    // no members: the trigger still fires on the empty room, but the timer
    // is left exactly where it was
    assert!(matches!(tick(&mut server, rid, 7, String::new(), 0), TickStatus::Frozen));
    assert_eq!(server.rooms[ri].round_time, 5);
}

#[test]
fn reported_ping_counter_is_recorded() {
    let mut server = fresh_server();
    let conn = join(&mut server, "pinger", 1);
    let mut data = bitmice::bytearray::ByteArray::new().write_u8(7);
    bitmice::handlers::player_ping::handle(&mut server, conn, &mut data);
    assert_eq!(server.clients[0].ping.0, 7);
}
