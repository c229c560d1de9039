use vstd::prelude::*;
use vstd::string::{StrSliceExecFns, StringExecFns};
use vstd::utf8::encode_utf8;

use crate::bytearray::ByteArray;
use crate::framer::spec_frame;
use crate::room::{spec_alive_count, unique_nonzero_ids, Room};
use crate::session::{find_client, spec_find_id, Client};
use crate::text::{spec_starts_with, starts_with_str, str_eq};

verus! {

/// The process-wide registry: configuration, id allocation, and the
/// directories of live sessions and rooms.
pub struct Server {
    /// Shared secret the version handshake must echo.
    pub ckey: String,
    /// Protocol version the handshake must match.
    pub version: u16,
    pub last_player_id: u32,
    pub last_room_id: u64,
    /// Monotonic counter behind the connection handles.
    pub last_conn: u64,
    /// Every live session, in connection order.
    pub clients: Vec<Client>,
    /// Every live room, in creation order.
    pub rooms: Vec<Room>,
}

impl Server {
    pub open spec fn wf(&self) -> bool {
        &&& unique_nonzero_ids(self.clients@)
        &&& (forall|i: int, j: int|
            0 <= i < j < self.clients@.len() ==> (#[trigger] self.clients@[i]).conn != (
            #[trigger] self.clients@[j]).conn)
        &&& (forall|i: int|
            0 <= i < self.clients@.len() ==> 1 <= (#[trigger] self.clients@[i]).conn
                <= self.last_conn)
        &&& (forall|i: int|
            0 <= i < self.clients@.len() ==> (#[trigger] self.clients@[i]).wf())
        &&& (forall|i: int|
            0 <= i < self.clients@.len() ==> (#[trigger] self.clients@[i]).id
                <= self.last_player_id)
        &&& (forall|i: int| 0 <= i < self.rooms@.len() ==> (#[trigger] self.rooms@[i]).wf())
        &&& (forall|i: int, j: int|
            0 <= i < j < self.rooms@.len() ==> (#[trigger] self.rooms@[i]).id != (
            #[trigger] self.rooms@[j]).id)
        &&& (forall|i: int|
            0 <= i < self.rooms@.len() ==> 1 <= (#[trigger] self.rooms@[i]).id
                <= self.last_room_id)
        &&& encode_utf8(self.ckey@).len() <= 1000
    }

    pub fn new(ckey: &str, version: u16) -> (r: Self)
        requires
            encode_utf8(ckey@).len() <= 1000,
        ensures
            r.wf(),
            r.ckey@ == ckey@,
            r.version == version,
            r.last_player_id == 0,
            r.last_room_id == 0,
            r.last_conn == 0,
            r.clients@.len() == 0,
            r.rooms@.len() == 0,
    {
        Server {
            ckey: ckey.to_owned(),
            version,
            last_player_id: 0,
            last_room_id: 0,
            last_conn: 0,
            clients: Vec::new(),
            rooms: Vec::new(),
        }
    }

    /// Allocates the next session id: a monotonic counter, so an id is never
    /// reused within the process lifetime.
    pub fn new_player_id(&mut self) -> (r: u32)
        requires
            old(self).last_player_id < u32::MAX,
        ensures
            *final(self) == (Server { last_player_id: r, ..*old(self) }),
            r == old(self).last_player_id + 1,
    {
        self.last_player_id = self.last_player_id + 1;
        self.last_player_id
    }

    /// The ids of the live sessions, in connection order.
    pub fn players(&self) -> (r: Vec<u32>)
        ensures
            r@.len() == self.clients@.len(),
            forall|i: int| 0 <= i < r@.len() ==> r@[i] == (#[trigger] self.clients@[i]).id,
    {
        let mut out: Vec<u32> = Vec::new();
        let mut i: usize = 0;
        while i < self.clients.len()
            invariant
                i <= self.clients@.len(),
                out@.len() == i,
                forall|j: int| 0 <= j < i ==> out@[j] == (#[trigger] self.clients@[j]).id,
            decreases self.clients@.len() - i,
        {
            out.push(self.clients[i].id);
            i = i + 1;
        }
        out
    }

    /// The ids of the live rooms, in creation order.
    pub fn rooms(&self) -> (r: Vec<u64>)
        ensures
            r@.len() == self.rooms@.len(),
            forall|i: int| 0 <= i < r@.len() ==> r@[i] == (#[trigger] self.rooms@[i]).id,
    {
        let mut out: Vec<u64> = Vec::new();
        let mut i: usize = 0;
        while i < self.rooms.len()
            invariant
                i <= self.rooms@.len(),
                out@.len() == i,
                forall|j: int| 0 <= j < i ==> out@[j] == (#[trigger] self.rooms@[j]).id,
            decreases self.rooms@.len() - i,
        {
            out.push(self.rooms[i].id);
            i = i + 1;
        }
        out
    }

    /// Index of the room with the given registry id.
    pub fn find_room(&self, room_id: u64) -> (r: Option<usize>)
        ensures
            match r {
                Some(i) => i < self.rooms@.len() && self.rooms@[i as int].id == room_id,
                None => forall|j: int|
                    0 <= j < self.rooms@.len() ==> (#[trigger] self.rooms@[j]).id != room_id,
            },
    {
        let mut i: usize = 0;
        while i < self.rooms.len()
            invariant
                i <= self.rooms@.len(),
                forall|j: int| 0 <= j < i ==> (#[trigger] self.rooms@[j]).id != room_id,
            decreases self.rooms@.len() - i,
        {
            if self.rooms[i].id == room_id {
                return Some(i);
            }
            i = i + 1;
        }
        None
    }

    /// Finds a session by name: a guest identity is matched with the guest
    /// prefix applied to the requested name, everyone else by bare name or
    /// full `name#tag`.
    pub fn get_player(&self, name: &str) -> (r: Option<usize>)
        ensures
            match r {
                Some(i) => i < self.clients@.len() && spec_match_name(
                    self.clients@[i as int],
                    name@,
                ) && (forall|j: int|
                    0 <= j < i ==> !spec_match_name(#[trigger] self.clients@[j], name@)),
                None => forall|j: int|
                    0 <= j < self.clients@.len() ==> !spec_match_name(
                        #[trigger] self.clients@[j],
                        name@,
                    ),
            },
    {
        proof {
            reveal_strlit("*");
            assert("*"@ =~= seq!['*']);
        }
        let starred = String::from_str("*").concat(name);
        proof {
            assert(starred@ =~= seq!['*'] + name@);
        }
        let mut i: usize = 0;
        while i < self.clients.len()
            invariant
                i <= self.clients@.len(),
                starred@ == seq!['*'] + name@,
                "*"@ == seq!['*'],
                forall|j: int| 0 <= j < i ==> !spec_match_name(#[trigger] self.clients@[j], name@),
            decreases self.clients@.len() - i,
        {
            let c = &self.clients[i];
            let use_star = c.is_guest && !starts_with_str(name, "*");
            let target: &str = if use_star {
                starred.as_str()
            } else {
                name
            };
            let full = c.full_name();
            if str_eq(c.name.as_str(), target) || str_eq(full.as_str(), target) {
                return Some(i);
            }
            i = i + 1;
        }
        None
    }

    /// Removes the session with the given id from the registry; the last
    /// entry takes its slot.
    pub fn remove_player(&mut self, client_id: u32)
        requires
            old(self).wf(),
        ensures
            final(self).wf(),
            *final(self) == (Server { clients: final(self).clients, ..*old(self) }),
            client_id != 0 ==> forall|j: int|
                0 <= j < final(self).clients@.len() ==> (#[trigger] final(self).clients@[j]).id
                    != client_id,
            forall|j: int|
                0 <= j < final(self).clients@.len() ==> old(self).clients@.contains(
                    #[trigger] final(self).clients@[j],
                ),
            (exists|k: int|
                0 <= k < old(self).clients@.len() && (#[trigger] old(self).clients@[k]).id
                    == client_id) ==> final(self).clients@.len() == old(self).clients@.len() - 1,
            !(exists|k: int|
                0 <= k < old(self).clients@.len() && (#[trigger] old(self).clients@[k]).id
                    == client_id) ==> final(self).clients == old(self).clients,
            forall|k: int|
                spec_find_id(old(self).clients@, client_id) == Some(k) ==> final(self).clients@
                    == old(self).clients@.update(
                    k,
                    old(self).clients@[old(self).clients@.len() - 1],
                ).drop_last(),
    {
        match find_client(&self.clients, client_id) {
            Some(i) => {
                self.clients.swap_remove(i);
                proof {
                    let oldc = old(self).clients@;
                    let newc = self.clients@;
                    assert(newc =~= oldc.update(i as int, oldc[oldc.len() - 1]).drop_last());
                    assert forall|j: int| 0 <= j < newc.len() implies oldc.contains(
                        #[trigger] newc[j],
                    ) by {
                        if j == i {
                            if i < newc.len() {
                                assert(newc[j] == oldc[oldc.len() - 1]);
                            }
                        } else {
                            assert(newc[j] == oldc[j]);
                        }
                    }
                    assert forall|j: int|
                        0 <= j < newc.len() && client_id != 0 implies (#[trigger] newc[j]).id
                        != client_id by {
                        if j == i {
                            if i < newc.len() {
                                assert(newc[j] == oldc[oldc.len() - 1]);
                                assert(oldc[i as int].id != oldc[oldc.len() - 1].id || oldc[
                                    i as int
                                ].id == 0);
                            }
                        } else {
                            assert(newc[j] == oldc[j]);
                            assert(oldc[i as int].id != oldc[j].id || oldc[i as int].id == 0);
                        }
                    }
                    assert forall|a: int, b: int| 0 <= a < b < newc.len() implies ((
                    #[trigger] newc[a]).id != (#[trigger] newc[b]).id || newc[a].id == 0) by {
                        let oa: int = if a == i {
                            oldc.len() - 1
                        } else {
                            a
                        };
                        let ob: int = if b == i {
                            oldc.len() - 1
                        } else {
                            b
                        };
                        assert(newc[a] == oldc[oa]);
                        assert(newc[b] == oldc[ob]);
                    }
                }
            },
            None => {},
        }
    }

    /// Registers a room, assigning it the next registry id.
    pub fn add_room(&mut self, room: Room) -> (r: u64)
        requires
            old(self).wf(),
            old(self).last_room_id < u64::MAX,
            room.wf(),
        ensures
            final(self).wf(),
            r == old(self).last_room_id + 1,
            final(self).last_room_id == r,
            final(self).rooms@.len() == old(self).rooms@.len() + 1,
            final(self).rooms@.last() == (Room { id: r, ..room }),
            final(self).rooms@.take(old(self).rooms@.len() as int) == old(self).rooms@,
            final(self).clients == old(self).clients,
            final(self).ckey == old(self).ckey,
            final(self).version == old(self).version,
            final(self).last_player_id == old(self).last_player_id,
    {
        self.last_room_id = self.last_room_id + 1;
        let mut room = room;
        room.id = self.last_room_id;
        self.rooms.push(room);
        proof {
            assert(final(self).rooms@.take(old(self).rooms@.len() as int) =~= old(self).rooms@);
        }
        self.last_room_id
    }

    /// Removes the room with the given registry id; the last entry takes its
    /// slot.
    pub fn remove_room(&mut self, room_id: u64)
        requires
            old(self).wf(),
        ensures
            final(self).wf(),
            *final(self) == (Server { rooms: final(self).rooms, ..*old(self) }),
            forall|j: int|
                0 <= j < final(self).rooms@.len() ==> (#[trigger] final(self).rooms@[j]).id
                    != room_id,
            forall|j: int|
                0 <= j < final(self).rooms@.len() ==> old(self).rooms@.contains(
                    #[trigger] final(self).rooms@[j],
                ),
    {
        match self.find_room(room_id) {
            Some(i) => {
                self.rooms.swap_remove(i);
                proof {
                    let oldr = old(self).rooms@;
                    let newr = self.rooms@;
                    assert forall|j: int| 0 <= j < newr.len() implies oldr.contains(
                        #[trigger] newr[j],
                    ) by {
                        if j == i {
                            if i < newr.len() {
                                assert(newr[j] == oldr[oldr.len() - 1]);
                            }
                        } else {
                            assert(newr[j] == oldr[j]);
                        }
                    }
                    assert forall|j: int| 0 <= j < newr.len() implies (#[trigger] newr[j]).id
                        != room_id by {
                        if j == i {
                            if i < newr.len() {
                                assert(newr[j] == oldr[oldr.len() - 1]);
                            }
                        } else {
                            assert(newr[j] == oldr[j]);
                        }
                    }
                    assert forall|a: int, b: int| 0 <= a < b < newr.len() implies (
                    #[trigger] newr[a]).id != (#[trigger] newr[b]).id by {
                        let oa: int = if a == i {
                            oldr.len() - 1
                        } else {
                            a
                        };
                        let ob: int = if b == i {
                            oldr.len() - 1
                        } else {
                            b
                        };
                        assert(newr[a] == oldr[oa]);
                        assert(newr[b] == oldr[ob]);
                    }
                }
            },
            None => {},
        }
    }

    /// Finds a room by name and language, passing over rooms whose category
    /// is frozen.
    pub fn get_room(&self, name: &str, lang: &str) -> (r: Option<usize>)
        ensures
            match r {
                Some(i) => i < self.rooms@.len() && spec_room_match(
                    self.rooms@[i as int],
                    name@,
                    lang@,
                ) && (forall|j: int|
                    0 <= j < i ==> !spec_room_match(#[trigger] self.rooms@[j], name@, lang@)),
                None => forall|j: int|
                    0 <= j < self.rooms@.len() ==> !spec_room_match(
                        #[trigger] self.rooms@[j],
                        name@,
                        lang@,
                    ),
            },
    {
        let mut i: usize = 0;
        while i < self.rooms.len()
            invariant
                i <= self.rooms@.len(),
                forall|j: int| 0 <= j < i ==> !spec_room_match(#[trigger] self.rooms@[j], name@, lang@),
            decreases self.rooms@.len() - i,
        {
            let room = &self.rooms[i];
            let frozen = match room.map_type {
                crate::room::MapType::Editor => true,
                crate::room::MapType::Totem => true,
                crate::room::MapType::Tutorial => true,
                _ => false,
            };
            if str_eq(room.name.as_str(), name) && str_eq(room.lang.as_str(), lang) && !frozen {
                return Some(i);
            }
            i = i + 1;
        }
        None
    }

    /// The most populated joinable room for a language; ties keep the first
    /// room found. When none exists a fresh default room is created.
    pub fn get_recommended_room(&mut self, lang: &str) -> (r: usize)
        requires
            old(self).wf(),
            old(self).last_room_id < u64::MAX,
            encode_utf8(lang@).len() <= 100,
        ensures
            final(self).wf(),
            final(self).clients == old(self).clients,
            final(self).ckey == old(self).ckey,
            final(self).version == old(self).version,
            final(self).last_player_id == old(self).last_player_id,
            r < final(self).rooms@.len(),
            (exists|j: int|
                0 <= j < old(self).rooms@.len() && spec_room_eligible(
                    #[trigger] old(self).rooms@[j],
                    lang@,
                )) ==> {
                &&& final(self).rooms == old(self).rooms
                &&& spec_room_eligible(final(self).rooms@[r as int], lang@)
                &&& (forall|j: int|
                    0 <= j < old(self).rooms@.len() && spec_room_eligible(
                        #[trigger] old(self).rooms@[j],
                        lang@,
                    ) ==> old(self).rooms@[j].members@.len() <= old(self).rooms@[
                        r as int
                    ].members@.len())
                &&& (forall|j: int|
                    0 <= j < r && spec_room_eligible(#[trigger] old(self).rooms@[j], lang@)
                        ==> old(self).rooms@[j].members@.len() < old(self).rooms@[
                        r as int
                    ].members@.len())
            },
            !(exists|j: int|
                0 <= j < old(self).rooms@.len() && spec_room_eligible(
                    #[trigger] old(self).rooms@[j],
                    lang@,
                )) ==> {
                &&& r == old(self).rooms@.len()
                &&& final(self).rooms@.len() == old(self).rooms@.len() + 1
                &&& final(self).rooms@.last().name@ == "1"@
                &&& final(self).rooms@.last().lang@ == lang@
                &&& final(self).rooms@.last().members@.len() == 0
                &&& final(self).rooms@.take(r as int) == old(self).rooms@
            },
    {
        let mut best: Option<usize> = None;
        let mut i: usize = 0;
        while i < self.rooms.len()
            invariant
                i <= self.rooms@.len(),
                match best {
                    Some(b) => b < i && spec_room_eligible(self.rooms@[b as int], lang@) && (
                    forall|j: int|
                        0 <= j < i && spec_room_eligible(#[trigger] self.rooms@[j], lang@)
                            ==> self.rooms@[j].members@.len() <= self.rooms@[
                            b as int
                        ].members@.len()) && (forall|j: int|
                        0 <= j < b && spec_room_eligible(#[trigger] self.rooms@[j], lang@)
                            ==> self.rooms@[j].members@.len() < self.rooms@[b as int].members@.len()),
                    None => forall|j: int|
                        0 <= j < i ==> !spec_room_eligible(#[trigger] self.rooms@[j], lang@),
                },
            decreases self.rooms@.len() - i,
        {
            let room = &self.rooms[i];
            proof {
                reveal_strlit("\x03");
                assert("\x03"@ =~= seq!['\x03']);
            }
            if !starts_with_str(room.name.as_str(), "\x03") && str_eq(room.lang.as_str(), lang) {
                match best {
                    Some(b) => {
                        if self.rooms[i].members.len() > self.rooms[b].members.len() {
                            best = Some(i);
                        }
                    },
                    None => {
                        best = Some(i);
                    },
                }
            }
            i = i + 1;
        }
        match best {
            Some(b) => b,
            None => {
                proof {
                    reveal_strlit("1");
                    crate::text::lemma_encode_utf8_len("1"@);
                }
                let room = Room::new(String::from_str("1"), String::from_str(lang));
                self.add_room(room);
                self.rooms.len() - 1
            },
        }
    }
}

/// Whether a session answers to the requested name, with the guest prefix
/// applied when the session is a guest and the caller did not write it.
pub open spec fn spec_match_name(c: Client, name: Seq<char>) -> bool {
    let adjusted = if c.is_guest && !spec_starts_with(name, seq!['*']) {
        seq!['*'] + name
    } else {
        name
    };
    c.name@ == adjusted || c.spec_full_name() == adjusted
}

/// Whether a room answers to a (name, language) lookup: frozen categories
/// are never joinable by name.
pub open spec fn spec_room_match(r: Room, name: Seq<char>, lang: Seq<char>) -> bool {
    r.name@ == name && r.lang@ == lang && !crate::room::frozen_map_type(r.map_type)
}

/// Whether a room counts for the recommended-room pick: its language
/// matches and it is not a system room.
pub open spec fn spec_room_eligible(r: Room, lang: Seq<char>) -> bool {
    !spec_starts_with(r.name@, seq!['\x03']) && r.lang@ == lang
}

impl Server {
    /// Queues one frame for every live session.
    pub fn send_data(&mut self, tokens: (u8, u8), data: ByteArray)
        requires
            old(self).wf(),
            data@.len() < 0xffffffff,
        ensures
            final(self).wf(),
            *final(self) == (Server { clients: final(self).clients, ..*old(self) }),
            final(self).clients@.len() == old(self).clients@.len(),
            forall|j: int|
                0 <= j < old(self).clients@.len() ==> crate::room::spec_delivery(
                    #[trigger] old(self).clients@[j],
                    final(self).clients@[j],
                    spec_frame(tokens.0, tokens.1, data@),
                ),
    {
        let ghost frame = spec_frame(tokens.0, tokens.1, data@);
        let mut j: usize = 0;
        while j < self.clients.len()
            invariant
                data@.len() < 0xffffffff,
                frame == spec_frame(tokens.0, tokens.1, data@),
                j <= self.clients@.len(),
                self.clients@.len() == old(self).clients@.len(),
                forall|t: int|
                    0 <= t < j ==> crate::room::spec_delivery(
                        #[trigger] old(self).clients@[t],
                        self.clients@[t],
                        frame,
                    ),
                forall|t: int|
                    j <= t < self.clients@.len() ==> self.clients@[t] == #[trigger] old(
                        self,
                    ).clients@[t],
                self.rooms == old(self).rooms,
                self.ckey == old(self).ckey,
                self.version == old(self).version,
                self.last_player_id == old(self).last_player_id,
                self.last_room_id == old(self).last_room_id,
                self.last_conn == old(self).last_conn,
            decreases self.clients@.len() - j,
        {
            let c = &mut self.clients[j];
            c.send_data(tokens, data.clone());
            j = j + 1;
        }
        proof {
            lemma_delivery_preserves_wf(old(self).clients@, self.clients@, frame);
            assert(old(self).wf());
        }
    }

    /// Queues one frame for every live session but the one with this id.
    pub fn send_data_except(&mut self, client_id: u32, tokens: (u8, u8), data: ByteArray)
        requires
            old(self).wf(),
            data@.len() < 0xffffffff,
        ensures
            final(self).wf(),
            *final(self) == (Server { clients: final(self).clients, ..*old(self) }),
            final(self).clients@.len() == old(self).clients@.len(),
            forall|j: int|
                0 <= j < old(self).clients@.len() ==> (if (#[trigger] old(self).clients@[j]).id
                    != client_id {
                    crate::room::spec_delivery(
                        old(self).clients@[j],
                        final(self).clients@[j],
                        spec_frame(tokens.0, tokens.1, data@),
                    )
                } else {
                    final(self).clients@[j] == old(self).clients@[j]
                }),
    {
        let ghost frame = spec_frame(tokens.0, tokens.1, data@);
        let mut j: usize = 0;
        while j < self.clients.len()
            invariant
                data@.len() < 0xffffffff,
                frame == spec_frame(tokens.0, tokens.1, data@),
                j <= self.clients@.len(),
                self.clients@.len() == old(self).clients@.len(),
                forall|t: int|
                    0 <= t < j ==> (if (#[trigger] old(self).clients@[t]).id != client_id {
                        crate::room::spec_delivery(old(self).clients@[t], self.clients@[t], frame)
                    } else {
                        self.clients@[t] == old(self).clients@[t]
                    }),
                forall|t: int|
                    j <= t < self.clients@.len() ==> self.clients@[t] == #[trigger] old(
                        self,
                    ).clients@[t],
                self.rooms == old(self).rooms,
                self.ckey == old(self).ckey,
                self.version == old(self).version,
                self.last_player_id == old(self).last_player_id,
                self.last_room_id == old(self).last_room_id,
                self.last_conn == old(self).last_conn,
            decreases self.clients@.len() - j,
        {
            let c = &mut self.clients[j];
            if c.id != client_id {
                c.send_data(tokens, data.clone());
            }
            j = j + 1;
        }
        proof {
            assert forall|t: int| 0 <= t < self.clients@.len() implies ((#[trigger] self.clients@[
                t
            ]).id == old(self).clients@[t].id && self.clients@[t].wf()) by {
                assert(self.clients@[t] == old(self).clients@[t] || crate::room::spec_delivery(
                    old(self).clients@[t],
                    self.clients@[t],
                    frame,
                ));
            }
            assert(old(self).wf());
        }
    }
}

/// Sessions related frame-by-frame keep their ids and well-formedness.
proof fn lemma_delivery_preserves_wf(orig: Seq<Client>, cur: Seq<Client>, frame: Seq<u8>)
    requires
        orig.len() == cur.len(),
        unique_nonzero_ids(orig),
        forall|j: int| 0 <= j < orig.len() ==> (#[trigger] orig[j]).wf(),
        forall|j: int|
            0 <= j < orig.len() ==> (crate::room::spec_delivery(
                #[trigger] orig[j],
                cur[j],
                frame,
            ) || cur[j] == orig[j]),
    ensures
        unique_nonzero_ids(cur),
        forall|j: int|
            0 <= j < cur.len() ==> (#[trigger] cur[j]).wf() && cur[j].id == orig[j].id
                && cur[j].conn == orig[j].conn,
{
    assert forall|j: int| 0 <= j < cur.len() implies ((#[trigger] cur[j]).wf() && cur[j].id
        == orig[j].id && cur[j].conn == orig[j].conn) by {
        assert(crate::room::spec_delivery(orig[j], cur[j], frame) || cur[j] == orig[j]);
    }
}

/// Sessions that either kept their value or kept their id and
/// well-formedness still form a well-formed directory.
pub proof fn lemma_clients_frame(orig: Seq<Client>, cur: Seq<Client>)
    requires
        orig.len() == cur.len(),
        unique_nonzero_ids(orig),
        forall|j: int| 0 <= j < orig.len() ==> (#[trigger] orig[j]).wf(),
        forall|j: int|
            0 <= j < orig.len() ==> (cur[j] == orig[j] || ((#[trigger] cur[j]).wf() && cur[j].id
                == orig[j].id && cur[j].conn == orig[j].conn)),
    ensures
        unique_nonzero_ids(cur),
        forall|j: int|
            0 <= j < cur.len() ==> (#[trigger] cur[j]).wf() && cur[j].id == orig[j].id
                && cur[j].conn == orig[j].conn,
{
    assert forall|j: int| 0 <= j < cur.len() implies ((#[trigger] cur[j]).wf() && cur[j].id
        == orig[j].id && cur[j].conn == orig[j].conn) by {
        assert(cur[j] == orig[j] || (cur[j].wf() && cur[j].id == orig[j].id && cur[j].conn
            == orig[j].conn));
    }
}

/// Drives the teardown cascade of a vanished connection: the session leaves
/// its room with a disconnect notice, then leaves the registry.
#[verifier::rlimit(100)]
#[verifier::spinoff_prover]
pub fn player_disconnect(server: &mut Server, client_id: u32)
    requires
        old(server).wf(),
    ensures
        final(server).wf(),
        final(server).ckey == old(server).ckey,
        final(server).version == old(server).version,
        final(server).last_player_id == old(server).last_player_id,
        final(server).last_room_id == old(server).last_room_id,
        client_id != 0 ==> forall|j: int|
            0 <= j < final(server).clients@.len() ==> (#[trigger] final(server).clients@[j]).id
                != client_id,
        final(server).rooms@.len() == old(server).rooms@.len(),
        forall|r: int|
            0 <= r < old(server).rooms@.len() ==> crate::room::same_except_members(
                #[trigger] old(server).rooms@[r],
                final(server).rooms@[r],
            ),
        forall|t: int, r: int|
            spec_find_id(old(server).clients@, client_id) == Some(t) && 0 <= r < old(server).rooms@.len() && (#[trigger] old(server).clients@[t]).room == Some(
                (#[trigger] old(server).rooms@[r]).id,
            ) ==> {
                &&& !final(server).rooms@[r].members@.contains(client_id)
                &&& (forall|m: u32|
                    m != client_id ==> (final(server).rooms@[r].members@.contains(m)
                        <==> old(server).rooms@[r].members@.contains(m)))
                &&& (old(server).rooms@[r].members@.contains(client_id) ==> forall|w: int|
                    0 <= w < old(server).clients@.len() && w != t && old(server).rooms@[
                        r
                    ].members@.contains((#[trigger] old(server).clients@[w]).id) ==> exists|u: int|
                        0 <= u < final(server).clients@.len() && crate::room::spec_delivery(
                            old(server).clients@[w],
                            #[trigger] final(server).clients@[u],
                            spec_frame(1, 1, crate::room::spec_disconnect_packet(client_id)),
                        ))
            },
        forall|t: int|
            spec_find_id(old(server).clients@, client_id) == Some(t) ==> (final(server).clients@.len() == old(server).clients@.len() - 1 && (forall|j: int|
                0 <= j < final(server).clients@.len() ==> (#[trigger] final(server).clients@[j]).conn == (if j == t {
                    old(server).clients@[old(server).clients@.len() - 1].conn
                } else {
                    old(server).clients@[j].conn
                }))),
{
    let ci = match find_client(&server.clients, client_id) {
        Some(i) => i,
        None => {
            return ;
        },
    };
    let rid_opt = server.clients[ci].room;
    if let Some(rid) = rid_opt {
        if let Some(ri) = server.find_room(rid) {
            let ghost cs0 = server.clients@;
            let room = &mut server.rooms[ri];
            room.remove_client(&mut server.clients, client_id);
            proof {
                assert forall|r: int| 0 <= r < server.rooms@.len() implies (
                #[trigger] server.rooms@[r]).wf() by {
                    if r != ri {
                        assert(server.rooms@[r] == old(server).rooms@[r]);
                    }
                }
                assert forall|a: int, b: int| 0 <= a < b < server.rooms@.len() implies (
                #[trigger] server.rooms@[a]).id != (#[trigger] server.rooms@[b]).id by {
                    assert(server.rooms@[a].id == old(server).rooms@[a].id);
                    assert(server.rooms@[b].id == old(server).rooms@[b].id);
                }
                assert forall|r: int| 0 <= r < server.rooms@.len() implies 1 <= (
                #[trigger] server.rooms@[r]).id <= server.last_room_id by {
                    assert(server.rooms@[r].id == old(server).rooms@[r].id);
                }
            }
        }
    }
    let ghost mid = *server;
    server.remove_player(client_id);
    proof {
        assert forall|t: int, r: int|
            spec_find_id(old(server).clients@, client_id) == Some(t) && 0 <= r < old(server).rooms@.len() && (#[trigger] old(server).clients@[t]).room == Some(
                (#[trigger] old(server).rooms@[r]).id,
            ) && old(server).rooms@[r].members@.contains(client_id) implies forall|w: int|
            0 <= w < old(server).clients@.len() && w != t && old(server).rooms@[
                r
            ].members@.contains((#[trigger] old(server).clients@[w]).id) ==> exists|u: int|
                0 <= u < server.clients@.len() && crate::room::spec_delivery(
                    old(server).clients@[w],
                    #[trigger] server.clients@[u],
                    spec_frame(1, 1, crate::room::spec_disconnect_packet(client_id)),
                ) by {
            crate::session::lemma_find_id_some(old(server).clients@, client_id);
            assert(old(server).clients@[t].id == client_id);
            assert(t == ci as int);
            assert(old(server).rooms@[r].id == rid_opt.unwrap());
            assert forall|w: int|
                0 <= w < old(server).clients@.len() && w != t && old(server).rooms@[
                    r
                ].members@.contains((#[trigger] old(server).clients@[w]).id) implies exists|u: int|
                0 <= u < server.clients@.len() && crate::room::spec_delivery(
                    old(server).clients@[w],
                    #[trigger] server.clients@[u],
                    spec_frame(1, 1, crate::room::spec_disconnect_packet(client_id)),
                ) by {
                let n = old(server).clients@.len() as int;
                assert(old(server).clients@[w].id != client_id || old(server).clients@[w].id == 0);
                assert(old(server).clients@[w].id >= 1) by {
                    let mem = old(server).rooms@[r].members@;
                    let k = choose|k: int| 0 <= k < mem.len() && mem[k] == old(server).clients@[w].id;
                    assert(mem[k] >= 1);
                }
                assert(crate::room::spec_delivery(
                    old(server).clients@[w],
                    mid.clients@[w],
                    spec_frame(1, 1, crate::room::spec_disconnect_packet(client_id)),
                ));
                crate::session::lemma_find_id_characterise(mid.clients@, client_id, t);
                assert(spec_find_id(mid.clients@, client_id) == Some(t));
                assert(server.clients@ == mid.clients@.update(t, mid.clients@[n - 1]).drop_last());
                if w == n - 1 {
                    assert(server.clients@[t] == mid.clients@[w]);
                } else {
                    assert(server.clients@[w] == mid.clients@[w]);
                }
            }
        }
        assert forall|t: int|
            spec_find_id(old(server).clients@, client_id) == Some(t) implies (server.clients@.len()
            == old(server).clients@.len() - 1 && (forall|j: int|
            0 <= j < server.clients@.len() ==> (#[trigger] server.clients@[j]).conn == (if j == t {
                old(server).clients@[old(server).clients@.len() - 1].conn
            } else {
                old(server).clients@[j].conn
            }))) by {
            crate::session::lemma_find_id_some(old(server).clients@, client_id);
            crate::session::lemma_find_id_characterise(mid.clients@, client_id, t);
            let n = old(server).clients@.len() as int;
            assert(server.clients@ == mid.clients@.update(t, mid.clients@[n - 1]).drop_last());
            assert forall|j: int|
                0 <= j < server.clients@.len() implies (#[trigger] server.clients@[j]).conn == (if j
                == t {
                old(server).clients@[n - 1].conn
            } else {
                old(server).clients@[j].conn
            }) by {
                if j == t {
                    assert(server.clients@[j] == mid.clients@[n - 1]);
                    assert(mid.clients@[n - 1].conn == old(server).clients@[n - 1].conn);
                } else {
                    assert(server.clients@[j] == mid.clients@[j]);
                    assert(mid.clients@[j].conn == old(server).clients@[j].conn);
                }
            }
        }
    }
}

/// Drives the teardown cascade keyed by the connection handle, which is
/// unique even before a login has assigned the session a player id.
#[verifier::rlimit(100)]
#[verifier::spinoff_prover]
pub fn player_disconnect_conn(server: &mut Server, conn: u64)
    requires
        old(server).wf(),
    ensures
        final(server).wf(),
        final(server).ckey == old(server).ckey,
        final(server).version == old(server).version,
        final(server).last_player_id == old(server).last_player_id,
        final(server).last_room_id == old(server).last_room_id,
        forall|j: int|
            0 <= j < final(server).clients@.len() ==> (#[trigger] final(server).clients@[j]).conn
                != conn,
{
    let ci = match crate::session::find_conn(&server.clients, conn) {
        Some(i) => i,
        None => {
            return ;
        },
    };
    let id = server.clients[ci].id;
    if id >= 1 {
        proof {
            crate::session::lemma_find_id_characterise(old(server).clients@, id, ci as int);
        }
        player_disconnect(server, id);
        proof {
            let n = old(server).clients@.len() as int;
            assert(spec_find_id(old(server).clients@, id) == Some(ci as int));
            assert forall|j: int|
                0 <= j < server.clients@.len() implies (#[trigger] server.clients@[j]).conn
                != conn by {
                if j == ci as int {
                    assert(server.clients@[j].conn == old(server).clients@[n - 1].conn);
                    assert(n - 1 != ci as int);
                    assert(old(server).clients@[n - 1].conn != old(server).clients@[
                        ci as int
                    ].conn);
                } else {
                    assert(server.clients@[j].conn == old(server).clients@[j].conn);
                    assert(old(server).clients@[j].conn != old(server).clients@[ci as int].conn);
                }
            }
        }
    } else {
        drop_unnamed_session(server, ci);
    }
}

/// Removes one session from the registry by position, for a connection
/// that vanished before a login named it.
#[verifier::rlimit(100)]
#[verifier::spinoff_prover]
fn drop_unnamed_session(server: &mut Server, ci: usize)
    requires
        old(server).wf(),
        ci < old(server).clients@.len(),
    ensures
        final(server).wf(),
        *final(server) == (Server { clients: final(server).clients, ..*old(server) }),
        forall|j: int|
            0 <= j < final(server).clients@.len() ==> (#[trigger] final(server).clients@[j]).conn
                != old(server).clients@[ci as int].conn,
{
    server.clients.swap_remove(ci);
    proof {
            let oldc = old(server).clients@;
            let newc = server.clients@;
            assert(newc =~= oldc.update(ci as int, oldc[oldc.len() - 1]).drop_last());
            assert forall|j: int| 0 <= j < newc.len() implies oldc.contains(
                #[trigger] newc[j],
            ) by {
                if j == ci as int {
                    assert(newc[j] == oldc[oldc.len() - 1]);
                } else {
                    assert(newc[j] == oldc[j]);
                }
            }
            assert forall|a: int, b: int| 0 <= a < b < newc.len() implies ((#[trigger] newc[a]).id
                == (#[trigger] newc[b]).id ==> newc[a].id == 0) by {
                let oa: int = if a == ci as int {
                    oldc.len() - 1
                } else {
                    a
                };
                let ob: int = if b == ci as int {
                    oldc.len() - 1
                } else {
                    b
                };
                assert(newc[a] == oldc[oa] && newc[b] == oldc[ob]);
            }
            assert forall|a: int, b: int| 0 <= a < b < newc.len() implies (#[trigger] newc[a]).conn
                != (#[trigger] newc[b]).conn by {
                let oa: int = if a == ci as int {
                    oldc.len() - 1
                } else {
                    a
                };
                let ob: int = if b == ci as int {
                    oldc.len() - 1
                } else {
                    b
                };
                assert(newc[a] == oldc[oa] && newc[b] == oldc[ob]);
            }
            assert forall|j: int| 0 <= j < newc.len() implies (#[trigger] newc[j]).conn != oldc[
                ci as int
            ].conn by {
                let oj: int = if j == ci as int {
                    oldc.len() - 1
                } else {
                    j
                };
                assert(newc[j] == oldc[oj]);
                if oj != ci as int {
                    assert(oldc[oj].conn != oldc[ci as int].conn);
                }
            }
    }
}

/// Frame shared by the handlers: the registry keeps its shape, its
/// configuration, and every session and room id.
pub open spec fn spec_registry_frame(o: Server, n: Server) -> bool {
    &&& n.wf()
    &&& n.ckey == o.ckey
    &&& n.version == o.version
    &&& n.last_player_id == o.last_player_id
    &&& n.last_room_id == o.last_room_id
    &&& n.last_conn == o.last_conn
    &&& n.clients@.len() == o.clients@.len()
    &&& (forall|j: int|
        0 <= j < n.clients@.len() ==> (#[trigger] n.clients@[j]).id == o.clients@[j].id
            && n.clients@[j].conn == o.clients@[j].conn)
    &&& n.rooms@.len() == o.rooms@.len()
    &&& (forall|r: int|
        0 <= r < n.rooms@.len() ==> (#[trigger] n.rooms@[r]).id == o.rooms@[r].id)
}

/// Frame shared by the round-driving operations: the registry shape is
/// stable, sessions keep their ids, and rooms change at most their sync
/// fields.
pub open spec fn spec_play_frame(o: Server, n: Server) -> bool {
    &&& n.wf()
    &&& n.ckey == o.ckey
    &&& n.version == o.version
    &&& n.last_player_id == o.last_player_id
    &&& n.last_room_id == o.last_room_id
    &&& n.last_conn == o.last_conn
    &&& n.clients@.len() == o.clients@.len()
    &&& (forall|j: int|
        0 <= j < n.clients@.len() ==> (#[trigger] n.clients@[j]).id == o.clients@[j].id
            && n.clients@[j].conn == o.clients@[j].conn)
    &&& n.rooms@.len() == o.rooms@.len()
    &&& (forall|r: int|
        0 <= r < n.rooms@.len() ==> crate::room::same_except_sync(
            #[trigger] o.rooms@[r],
            n.rooms@[r],
        ))
}

/// Player-data images of the resolvable members, in member order.
pub open spec fn spec_player_list(cs: Seq<Client>, members: Seq<u32>) -> Seq<u8>
    decreases members.len(),
{
    if members.len() == 0 {
        Seq::empty()
    } else {
        spec_player_list(cs, members.drop_last()) + (match spec_find_id(cs, members.last()) {
            Some(i) => cs[i].spec_player_data(),
            None => Seq::<u8>::empty(),
        })
    }
}

/// Sessions pairwise keep their identity and round flags.
pub open spec fn spec_clients_pres(a: Seq<Client>, b: Seq<Client>) -> bool {
    &&& a.len() == b.len()
    &&& (forall|j: int|
        0 <= j < a.len() ==> ((#[trigger] b[j]).wf() && Client::same_identity(a[j], b[j])
            && Client::same_round_flags(a[j], b[j]) && b[j].conn == a[j].conn))
}

pub proof fn lemma_pres_trans(a: Seq<Client>, b: Seq<Client>, c: Seq<Client>)
    requires
        spec_clients_pres(a, b),
        spec_clients_pres(b, c),
    ensures
        spec_clients_pres(a, c),
{
}

/// The opening frames of a round, given the payload of the player list and
/// the picked sync code.
pub open spec fn spec_intro_frames(
    room: Room,
    new_map: bool,
    custom_map: bool,
    list_payload: Seq<u8>,
    sync_code: i32,
) -> Seq<Seq<u8>> {
    (if crate::session::spec_zlib_len(room, custom_map) <= 0x7fffffff {
        seq![
            spec_frame(
                crate::tokens::NEW_MAP.0,
                crate::tokens::NEW_MAP.1,
                crate::session::spec_new_map_payload(
                    room,
                    room.members@.len() as i16,
                    new_map,
                    custom_map,
                ),
            ),
        ]
    } else {
        Seq::<Seq<u8>>::empty()
    }) + seq![
        spec_frame(crate::tokens::PLAYER_LIST.0, crate::tokens::PLAYER_LIST.1, list_payload),
        spec_frame(1, 1, crate::session::spec_sync_packet(sync_code)),
        spec_frame(
            crate::tokens::ROUND_TIME.0,
            crate::tokens::ROUND_TIME.1,
            crate::bytearray::u16_be(
                (if room.round_time < 0 {
                    0i16
                } else {
                    room.round_time
                }) as u16,
            ),
        ),
    ]
}

/// Whether the round loads a fresh map image for this room.
pub open spec fn spec_new_map_flag(room: Room) -> bool {
    !(room.map_code == -1 && room.map_type == crate::room::MapType::Editor)
}

/// Whether the room is on a custom map.
pub open spec fn spec_custom_map_flag(room: Room) -> bool {
    room.map_code != -1
}

/// Whether the round's timer is announced as running to this session.
pub open spec fn spec_start_flag(room: Room, target: Client) -> bool {
    !(target.is_dead || room.map_type == crate::room::MapType::Tutorial || room.map_type
        == crate::room::MapType::Totem || room.room_type == crate::room::RoomType::Bootcamp
        || room.room_type == crate::room::RoomType::Defilante || room.members@.len() < 2)
}

/// `q0` is a prefix of `q1`: frames are only appended, never reordered.
pub open spec fn spec_queue_prefix(q0: Seq<Seq<u8>>, q1: Seq<Seq<u8>>) -> bool {
    q0.len() <= q1.len() && q1.take(q0.len() as int) == q0
}

/// Somewhere after `q0`'s frames, `q1` carries a full round-opening
/// sequence for the room: the session was respawned into the new round.
pub open spec fn spec_queue_has_intro(q0: Seq<Seq<u8>>, q1: Seq<Seq<u8>>, room: Room) -> bool {
    exists|pre: Seq<Seq<u8>>, lp: Seq<u8>, sync: i32, suf: Seq<Seq<u8>>|
        q1 == #[trigger] (q0 + pre + spec_intro_frames(
            room,
            spec_new_map_flag(room),
            spec_custom_map_flag(room),
            lp,
            sync,
        ) + suf)
}

/// Whatever a spawn appended, the old frames lead the queue.
proof fn lemma_prefix_of_growth(q0: Seq<Seq<u8>>, q1: Seq<Seq<u8>>)
    requires
        q1 == q0 || q1.len() >= q0.len() && q1.take(q0.len() as int) == q0 || (exists|f: Seq<u8>|
            q1 == q0.push(f)) || (exists|ext: Seq<Seq<u8>>| q1 == #[trigger] (q0 + ext)),
    ensures
        spec_queue_prefix(q0, q1),
{
    if q1 == q0 {
        assert(q1.take(q0.len() as int) =~= q0);
    } else if exists|f: Seq<u8>| q1 == q0.push(f) {
        let f = choose|f: Seq<u8>| q1 == q0.push(f);
        assert(q1.take(q0.len() as int) =~= q0);
    } else if exists|ext: Seq<Seq<u8>>| q1 == #[trigger] (q0 + ext) {
        let ext = choose|ext: Seq<Seq<u8>>| q1 == #[trigger] (q0 + ext);
        assert(q1.take(q0.len() as int) =~= q0);
    }
}

/// Whatever one spawn call resolved to, every queue only grew.
#[verifier::rlimit(100)]
#[verifier::spinoff_prover]
proof fn lemma_spawn_queue_growth(sp: Server, curs: Server, m: u32)
    requires
        sp.clients@.len() == curs.clients@.len(),
        spec_find_id(sp.clients@, m) is None ==> curs == sp,
        forall|t: int|
            spec_find_id(sp.clients@, m) == Some(t) && (sp.clients@[t].room is None || (forall|
                r: int,
            |
                0 <= r < sp.rooms@.len() ==> Some((#[trigger] sp.rooms@[r]).id)
                    != sp.clients@[t].room)) ==> forall|j: int|
                0 <= j < curs.clients@.len() ==> (#[trigger] curs.clients@[j]).queue()
                    == sp.clients@[j].queue(),
        forall|t: int, r: int|
            spec_find_id(sp.clients@, m) == Some(t) && m != 0 && 0 <= r < sp.rooms@.len()
                && sp.clients@[t].room == Some((#[trigger] sp.rooms@[r]).id)
                ==> #[trigger] spec_start_play_effect(sp, curs, t, r),
        m != 0,
    ensures
        forall|j: int|
            0 <= j < curs.clients@.len() ==> spec_queue_prefix(
                sp.clients@[j].queue(),
                (#[trigger] curs.clients@[j]).queue(),
            ),
{
    let cs2 = sp.clients@;
    crate::session::lemma_find_id_some(cs2, m);
    assert forall|j: int| 0 <= j < curs.clients@.len() implies spec_queue_prefix(
        cs2[j].queue(),
        (#[trigger] curs.clients@[j]).queue(),
    ) by {
        if spec_find_id(cs2, m) is None {
            assert(curs == sp);
            assert(curs.clients@[j].queue().take(cs2[j].queue().len() as int) =~= cs2[
                j
            ].queue());
        } else {
            let t = spec_find_id(cs2, m).unwrap();
            match cs2[t].room {
                None => {
                    assert(curs.clients@[j].queue() == cs2[j].queue());
                    lemma_prefix_of_growth(cs2[j].queue(), curs.clients@[j].queue());
                },
                Some(rid2) => {
                    if exists|r2: int| 0 <= r2 < sp.rooms@.len() && (#[trigger] sp.rooms@[r2]).id
                        == rid2 {
                        let r2 = choose|r2: int|
                            0 <= r2 < sp.rooms@.len() && (#[trigger] sp.rooms@[r2]).id == rid2;
                        assert(spec_start_play_effect(sp, curs, t, r2));
                        let room2 = sp.rooms@[r2];
                        if j == t {
                            if cs2[t].is_closed {
                                assert(curs.clients@[j].queue() == cs2[j].queue());
                                lemma_prefix_of_growth(cs2[j].queue(), curs.clients@[j].queue());
                            } else {
                                let lp0 = crate::bytearray::u16_be(
                                    (room2.members@.len() as i16) as u16,
                                ) + spec_player_list(cs2, room2.members@);
                                let sc = choose|sc: i32|
                                    curs.clients@[j].queue() == (cs2[j].queue()
                                        + #[trigger] spec_intro_frames(
                                        room2,
                                        spec_new_map_flag(room2),
                                        spec_custom_map_flag(room2),
                                        lp0,
                                        sc,
                                    ) + (if room2.members@.contains(cs2[j].id) {
                                        seq![
                                            spec_frame(
                                                crate::tokens::MAP_START_TIMER.0,
                                                crate::tokens::MAP_START_TIMER.1,
                                                crate::bytearray::bool_byte(
                                                    spec_start_flag(room2, cs2[t]),
                                                ),
                                            ),
                                        ]
                                    } else {
                                        Seq::<Seq<u8>>::empty()
                                    }));
                                let frames0 = spec_intro_frames(
                                    room2,
                                    spec_new_map_flag(room2),
                                    spec_custom_map_flag(room2),
                                    lp0,
                                    sc,
                                );
                                let tail0: Seq<Seq<u8>> = if room2.members@.contains(cs2[j].id) {
                                    seq![
                                        spec_frame(
                                            crate::tokens::MAP_START_TIMER.0,
                                            crate::tokens::MAP_START_TIMER.1,
                                            crate::bytearray::bool_byte(
                                                spec_start_flag(room2, cs2[t]),
                                            ),
                                        ),
                                    ]
                                } else {
                                    Seq::<Seq<u8>>::empty()
                                };
                                assert(curs.clients@[j].queue() == cs2[j].queue() + (frames0
                                    + tail0)) by {
                                    assert(cs2[j].queue() + frames0 + tail0 =~= cs2[j].queue() + (
                                    frames0 + tail0));
                                }
                                lemma_prefix_of_growth(cs2[j].queue(), curs.clients@[j].queue());
                            }
                        } else {
                            if room2.members@.contains(cs2[j].id) {
                                assert(crate::room::spec_delivery(
                                    cs2[j],
                                    curs.clients@[j],
                                    spec_frame(
                                        crate::tokens::MAP_START_TIMER.0,
                                        crate::tokens::MAP_START_TIMER.1,
                                        crate::bytearray::bool_byte(spec_start_flag(room2, cs2[t])),
                                    ),
                                ));
                                lemma_prefix_of_growth(cs2[j].queue(), curs.clients@[j].queue());
                            } else {
                                assert(curs.clients@[j] == cs2[j]);
                                lemma_prefix_of_growth(cs2[j].queue(), curs.clients@[j].queue());
                            }
                        }
                    } else {
                        assert(curs.clients@[j].queue() == cs2[j].queue());
                        lemma_prefix_of_growth(cs2[j].queue(), curs.clients@[j].queue());
                    }
                },
            }
        }
    }
}

proof fn lemma_prefix_trans(q0: Seq<Seq<u8>>, q1: Seq<Seq<u8>>, q2: Seq<Seq<u8>>)
    requires
        spec_queue_prefix(q0, q1),
        spec_queue_prefix(q1, q2),
    ensures
        spec_queue_prefix(q0, q2),
{
    assert(q2.take(q0.len() as int) =~= q2.take(q1.len() as int).take(q0.len() as int));
}

proof fn lemma_prefix_push(q0: Seq<Seq<u8>>, q1: Seq<Seq<u8>>, f: Seq<u8>)
    requires
        spec_queue_prefix(q0, q1),
    ensures
        spec_queue_prefix(q0, q1.push(f)),
{
    assert(q1.push(f).take(q0.len() as int) =~= q1.take(q0.len() as int));
}

proof fn lemma_prefix_concat(q0: Seq<Seq<u8>>, q1: Seq<Seq<u8>>, ext: Seq<Seq<u8>>)
    requires
        spec_queue_prefix(q0, q1),
    ensures
        spec_queue_prefix(q0, q1 + ext),
{
    assert((q1 + ext).take(q0.len() as int) =~= q1.take(q0.len() as int));
}

proof fn lemma_has_intro_push(q0: Seq<Seq<u8>>, q1: Seq<Seq<u8>>, room: Room, f: Seq<u8>)
    requires
        spec_queue_has_intro(q0, q1, room),
    ensures
        spec_queue_has_intro(q0, q1.push(f), room),
{
    let (pre, lp, sync, suf) = choose|pre: Seq<Seq<u8>>, lp: Seq<u8>, sync: i32, suf: Seq<
        Seq<u8>,
    >|
        q1 == #[trigger] (q0 + pre + spec_intro_frames(
            room,
            spec_new_map_flag(room),
            spec_custom_map_flag(room),
            lp,
            sync,
        ) + suf);
    let frames = spec_intro_frames(
        room,
        spec_new_map_flag(room),
        spec_custom_map_flag(room),
        lp,
        sync,
    );
    assert(q1.push(f) =~= q0 + pre + frames + suf.push(f));
}

/// A round already opened stays opened when the queue only grows.
proof fn lemma_has_intro_extend(
    q0: Seq<Seq<u8>>,
    q1: Seq<Seq<u8>>,
    q2: Seq<Seq<u8>>,
    room: Room,
)
    requires
        spec_queue_has_intro(q0, q1, room),
        spec_queue_prefix(q1, q2),
    ensures
        spec_queue_has_intro(q0, q2, room),
{
    let (pre, lp, sync, suf) = choose|pre: Seq<Seq<u8>>, lp: Seq<u8>, sync: i32, suf: Seq<
        Seq<u8>,
    >|
        q1 == #[trigger] (q0 + pre + spec_intro_frames(
            room,
            spec_new_map_flag(room),
            spec_custom_map_flag(room),
            lp,
            sync,
        ) + suf);
    let frames = spec_intro_frames(
        room,
        spec_new_map_flag(room),
        spec_custom_map_flag(room),
        lp,
        sync,
    );
    let ext = q2.skip(q1.len() as int);
    assert(q2 =~= q1 + ext);
    assert(q2 =~= q0 + pre + frames + (suf + ext));
}

/// A round is opened from a queue that only grew since `q0`.
proof fn lemma_has_intro_from_effect(
    q0: Seq<Seq<u8>>,
    q1: Seq<Seq<u8>>,
    q2: Seq<Seq<u8>>,
    room: Room,
    lp: Seq<u8>,
    sync: i32,
    tail: Seq<Seq<u8>>,
)
    requires
        spec_queue_prefix(q0, q1),
        q2 == q1 + spec_intro_frames(
            room,
            spec_new_map_flag(room),
            spec_custom_map_flag(room),
            lp,
            sync,
        ) + tail,
    ensures
        spec_queue_has_intro(q0, q2, room),
{
    let ext = q1.skip(q0.len() as int);
    assert(q1 =~= q0 + ext);
    let frames = spec_intro_frames(
        room,
        spec_new_map_flag(room),
        spec_custom_map_flag(room),
        lp,
        sync,
    );
    assert(q2 =~= q0 + ext + frames + tail);
}

/// The round-opening frames read only the map fields, the member count and
/// the timer, so rooms that agree there open rounds identically.
proof fn lemma_intro_frames_same_fields(a: Room, b: Room, lp: Seq<u8>, sync: i32)
    requires
        a.map_code == b.map_code,
        a.map_type == b.map_type,
        a.map_name == b.map_name,
        a.map_xml == b.map_xml,
        a.map_perma == b.map_perma,
        a.is_inverted_map == b.is_inverted_map,
        a.last_round_code == b.last_round_code,
        a.name == b.name,
        a.members == b.members,
        a.round_time == b.round_time,
    ensures
        spec_intro_frames(a, spec_new_map_flag(a), spec_custom_map_flag(a), lp, sync)
            == spec_intro_frames(b, spec_new_map_flag(b), spec_custom_map_flag(b), lp, sync),
        spec_new_map_flag(a) == spec_new_map_flag(b),
        spec_custom_map_flag(a) == spec_custom_map_flag(b),
    decreases 0int,
{
    assert(crate::session::spec_new_map_payload(
        a,
        a.members@.len() as i16,
        spec_new_map_flag(a),
        spec_custom_map_flag(a),
    ) =~= crate::session::spec_new_map_payload(
        b,
        b.members@.len() as i16,
        spec_new_map_flag(b),
        spec_custom_map_flag(b),
    ));
    assert(spec_intro_frames(a, spec_new_map_flag(a), spec_custom_map_flag(a), lp, sync)
        =~= spec_intro_frames(b, spec_new_map_flag(b), spec_custom_map_flag(b), lp, sync));
}

proof fn lemma_has_intro_room_swap(q0: Seq<Seq<u8>>, q1: Seq<Seq<u8>>, a: Room, b: Room)
    requires
        spec_queue_has_intro(q0, q1, a),
        a.map_code == b.map_code,
        a.map_type == b.map_type,
        a.map_name == b.map_name,
        a.map_xml == b.map_xml,
        a.map_perma == b.map_perma,
        a.is_inverted_map == b.is_inverted_map,
        a.last_round_code == b.last_round_code,
        a.name == b.name,
        a.members == b.members,
        a.round_time == b.round_time,
    ensures
        spec_queue_has_intro(q0, q1, b),
{
    let (pre, lp, sync, suf) = choose|pre: Seq<Seq<u8>>, lp: Seq<u8>, sync: i32, suf: Seq<
        Seq<u8>,
    >|
        q1 == #[trigger] (q0 + pre + spec_intro_frames(
            a,
            spec_new_map_flag(a),
            spec_custom_map_flag(a),
            lp,
            sync,
        ) + suf);
    lemma_intro_frames_same_fields(a, b, lp, sync);
    assert(q1 == q0 + pre + spec_intro_frames(
        b,
        spec_new_map_flag(b),
        spec_custom_map_flag(b),
        lp,
        sync,
    ) + suf);
}

/// What starting a round sends, given the indices of the session and its
/// room: the session is sent the map, the player list, a sync target, and
/// the round time, in that order, and the whole room is told whether the
/// timer runs.
pub open spec fn spec_start_play_effect(o: Server, n: Server, t: int, r: int) -> bool {
    let room = o.rooms@[r];
    let target = o.clients@[t];
    let f_start = spec_frame(
        crate::tokens::MAP_START_TIMER.0,
        crate::tokens::MAP_START_TIMER.1,
        crate::bytearray::bool_byte(spec_start_flag(room, target)),
    );
    &&& (!target.is_closed ==> exists|sync_code: i32|
        n.clients@[t].queue() == target.queue() + #[trigger] spec_intro_frames(
            room,
            spec_new_map_flag(room),
            spec_custom_map_flag(room),
            crate::bytearray::u16_be((room.members@.len() as i16) as u16) + spec_player_list(
                o.clients@,
                room.members@,
            ),
            sync_code,
        ) + (if room.members@.contains(target.id) {
            seq![f_start]
        } else {
            Seq::<Seq<u8>>::empty()
        }))
    &&& (target.is_closed ==> n.clients@[t].queue() == target.queue())
    &&& (forall|j: int|
        0 <= j < o.clients@.len() && j != t ==> (if room.members@.contains(
            (#[trigger] o.clients@[j]).id,
        ) {
            crate::room::spec_delivery(o.clients@[j], n.clients@[j], f_start)
        } else {
            n.clients@[j] == o.clients@[j]
        }))
}

/// Sends one session the opening packets of a round: the map, the player
/// list, the sync target, and the round time, in that order.
#[verifier::rlimit(100)]
#[verifier::spinoff_prover]
fn send_round_intro(
    clients: &mut Vec<Client>,
    ci: usize,
    room: &Room,
    new_map: bool,
    custom_map: bool,
    players_count: i16,
    list_payload: ByteArray,
    sync_code: i32,
)
    requires
        ci < old(clients)@.len(),
        room.wf(),
        list_payload@.len() < 0xf0000000,
        players_count == room.members@.len() as i16,
        forall|j: int| 0 <= j < old(clients)@.len() ==> (#[trigger] old(clients)@[j]).wf(),
        unique_nonzero_ids(old(clients)@),
    ensures
        final(clients)@.len() == old(clients)@.len(),
        unique_nonzero_ids(final(clients)@),
        forall|j: int| 0 <= j < final(clients)@.len() ==> (#[trigger] final(clients)@[j]).wf(),
        spec_clients_pres(old(clients)@, final(clients)@),
        forall|j: int|
            0 <= j < old(clients)@.len() && j != ci ==> final(clients)@[j] == #[trigger] old(
                clients,
            )@[j],
        !old(clients)@[ci as int].is_closed ==> final(clients)@[ci as int].queue() == old(
            clients,
        )@[ci as int].queue() + spec_intro_frames(
            *room,
            new_map,
            custom_map,
            list_payload@,
            sync_code,
        ),
        old(clients)@[ci as int].is_closed ==> final(clients)@[ci as int].queue() == old(
            clients,
        )@[ci as int].queue(),
{
    let ghost q0 = old(clients)@[ci as int].queue();
    let ghost frames = spec_intro_frames(*room, new_map, custom_map, list_payload@, sync_code);
    {
        let c = &mut clients[ci];
        let _ = c.load_map(room, players_count, new_map, custom_map);
    }
    proof {
        assert forall|j: int|
            0 <= j < clients@.len() implies (clients@[j] == (#[trigger] old(clients)@[j]) || (
        clients@[j].wf() && clients@[j].id == old(clients)@[j].id && clients@[j].conn == old(
            clients,
        )@[j].conn)) by {}
        lemma_clients_frame(old(clients)@, clients@);
        assert(spec_clients_pres(old(clients)@, clients@));
    }
    let ghost cs2 = clients@;
    {
        let c = &mut clients[ci];
        c.send_data(crate::tokens::PLAYER_LIST, list_payload);
    }
    proof {
        assert forall|j: int|
            0 <= j < clients@.len() implies (clients@[j] == (#[trigger] cs2[j]) || (
        clients@[j].wf() && clients@[j].id == cs2[j].id && clients@[j].conn == cs2[j].conn)) by {}
        lemma_clients_frame(cs2, clients@);
        assert(spec_clients_pres(cs2, clients@));
        lemma_pres_trans(old(clients)@, cs2, clients@);
    }
    let ghost cs3 = clients@;
    {
        let c = &mut clients[ci];
        c.sync(room.map_code, sync_code);
    }
    proof {
        assert forall|j: int|
            0 <= j < clients@.len() implies (clients@[j] == (#[trigger] cs3[j]) || (
        clients@[j].wf() && clients@[j].id == cs3[j].id && clients@[j].conn == cs3[j].conn)) by {}
        lemma_clients_frame(cs3, clients@);
        assert(spec_clients_pres(cs3, clients@));
        lemma_pres_trans(old(clients)@, cs3, clients@);
    }
    let rt = room.round_time;
    let rt_send: i16 = if rt < 0 {
        0
    } else {
        rt
    };
    let ghost cs4 = clients@;
    {
        let c = &mut clients[ci];
        c.send_data(crate::tokens::ROUND_TIME, ByteArray::new().write_i16(rt_send));
    }
    proof {
        assert forall|j: int|
            0 <= j < clients@.len() implies (clients@[j] == (#[trigger] cs4[j]) || (
        clients@[j].wf() && clients@[j].id == cs4[j].id && clients@[j].conn == cs4[j].conn)) by {}
        lemma_clients_frame(cs4, clients@);
        assert(spec_clients_pres(cs4, clients@));
        lemma_pres_trans(old(clients)@, cs4, clients@);
        if !old(clients)@[ci as int].is_closed {
            assert(clients@[ci as int].queue() =~= q0 + frames);
        }
    }
}

/// Starts a round for one session: sends it the map, the player list, the
/// sync target, and the round time, then tells the whole room whether the
/// timer runs.
#[verifier::rlimit(100)]
#[verifier::spinoff_prover]
pub fn start_play(server: &mut Server, client_id: u32, now: u128)
    requires
        old(server).wf(),
    ensures
        final(server).wf(),
        spec_play_frame(*old(server), *final(server)),
        spec_clients_pres(old(server).clients@, final(server).clients@),
        forall|r: int|
            0 <= r < final(server).rooms@.len() ==> ((#[trigger] final(server).rooms@[r]).sync_code
                == old(server).rooms@[r].sync_code || final(server).rooms@[r].sync_code == 0 || (
            exists|k: int|
                0 <= k < old(server).rooms@[r].members@.len() && final(server).rooms@[r].sync_code
                    == (#[trigger] old(server).rooms@[r].members@[k]) as i32)),
        spec_find_id(old(server).clients@, client_id) is None ==> *final(server) == *old(
            server,
        ),
        forall|t: int|
            spec_find_id(old(server).clients@, client_id) == Some(t) && (old(server).clients@[t].room is None || (forall|r: int|
                0 <= r < old(server).rooms@.len() ==> Some((#[trigger] old(server).rooms@[r]).id)
                    != old(server).clients@[t].room)) ==> forall|j: int|
                0 <= j < final(server).clients@.len() ==> (#[trigger] final(server).clients@[j]).queue() == old(server).clients@[j].queue(),
        forall|t: int, r: int|
            spec_find_id(old(server).clients@, client_id) == Some(t) && client_id != 0 && 0 <= r
                < old(server).rooms@.len() && old(server).clients@[t].room == Some(
                (#[trigger] old(server).rooms@[r]).id,
            ) ==> #[trigger] spec_start_play_effect(*old(server), *final(server), t, r),
{
    let ci = match find_client(&server.clients, client_id) {
        Some(i) => i,
        None => {
            return ;
        },
    };
    let rid = match server.clients[ci].room {
        Some(r) => r,
        None => {
            let c = &mut server.clients[ci];
            c.start_time = now;
            proof {
                lemma_start_time_step(old(server).clients@, server.clients@, ci as int);
            }
            return ;
        },
    };
    let ri = match server.find_room(rid) {
        Some(i) => i,
        None => {
            let c = &mut server.clients[ci];
            c.start_time = now;
            proof {
                lemma_start_time_step(old(server).clients@, server.clients@, ci as int);
            }
            return ;
        },
    };
    proof {
        assert forall|r: int|
            0 <= r < old(server).rooms@.len() && old(server).clients@[ci as int].room == Some(
                (#[trigger] old(server).rooms@[r]).id,
            ) implies r == ri as int by {
            assert(old(server).rooms@[r].id == old(server).rooms@[ri as int].id);
            if r != ri {
                assert(false);
            }
        }
    }
    let mut new_map = true;
    let mut custom_map = false;
    if server.rooms[ri].map_code != -1 {
        custom_map = true;
    } else if server.rooms[ri].map_type == crate::room::MapType::Editor {
        new_map = false;
    }
    let players_count = server.rooms[ri].members.len() as i16;
    let mut data = ByteArray::new().write_i16(players_count);
    let members = server.rooms[ri].players();
    proof {
        assert(members@.take(0) =~= Seq::<u32>::empty());
        assert(data@ =~= crate::bytearray::u16_be(players_count as u16) + spec_player_list(
            old(server).clients@,
            members@.take(0),
        ));
    }
    let mut k: usize = 0;
    while k < members.len()
        invariant
            server.wf(),
            server == old(server),
            members@.len() <= 32767,
            players_count == members@.len() as i16,
            k <= members@.len(),
            data@ == crate::bytearray::u16_be(players_count as u16) + spec_player_list(
                old(server).clients@,
                members@.take(k as int),
            ),
            data@.len() <= 2 + k * 13000,
        decreases members@.len() - k,
    {
        let ghost pre = members@.take(k as int);
        proof {
            assert(members@.take(k + 1) =~= pre.push(members@[k as int]));
            assert(pre.push(members@[k as int]).drop_last() =~= pre);
        }
        match find_client(&server.clients, members[k]) {
            Some(pi) => {
                proof {
                    crate::session::lemma_player_data_len(&server.clients@[pi as int]);
                }
                let pd = server.clients[pi].player_data();
                data = data.write_bytes(pd.as_bytes());
            },
            None => {},
        }
        proof {
            assert(data@.len() <= 2 + (k + 1) * 13000) by (nonlinear_arith)
                requires
                    data@.len() <= 2 + k * 13000 + 13000,
            ;
            assert(data@ =~= crate::bytearray::u16_be(players_count as u16) + spec_player_list(
                old(server).clients@,
                members@.take(k + 1),
            ));
        }
        k = k + 1;
    }
    proof {
        assert(members@.take(members@.len() as int) =~= members@);
        assert(data@.len() <= 2 + 32767 * 13000);
    }
    {
        let c = &mut server.clients[ci];
        c.start_time = now;
    }
    proof {
        lemma_start_time_step(old(server).clients@, server.clients@, ci as int);
    }
    let ghost rs1 = server.rooms@;
    let sync_code = server.rooms[ri].get_sync_code(&server.clients);
    proof {
        assert forall|r: int| 0 <= r < server.rooms@.len() implies ((#[trigger] server.rooms@[
            r
        ]).wf() && crate::room::same_except_sync(rs1[r], server.rooms@[r])) by {
            if r != ri {
                assert(server.rooms@[r] == rs1[r]);
            }
        }
    }
    let ghost cs1 = server.clients@;
    {
        let room = &server.rooms[ri];
        proof {
            lemma_intro_frames_sync_invariant(
                old(server).rooms@[ri as int],
                server.rooms@[ri as int],
                new_map,
                custom_map,
                data@,
                sync_code,
            );
        }
        send_round_intro(
            &mut server.clients,
            ci,
            room,
            new_map,
            custom_map,
            players_count,
            data,
            sync_code,
        );
    }
    proof {
        lemma_pres_trans(old(server).clients@, cs1, server.clients@);
    }
    let is_dead = server.clients[ci].is_dead;
    let room = &server.rooms[ri];
    let start = !(is_dead || room.map_type == crate::room::MapType::Tutorial || room.map_type
        == crate::room::MapType::Totem || room.room_type == crate::room::RoomType::Bootcamp
        || room.room_type == crate::room::RoomType::Defilante || room.members.len() < 2);
    let ghost cs5 = server.clients@;
    room.start_map(&mut server.clients, start);
    proof {
        let o = *old(server);
        let t = ci as int;
        let oroom = o.rooms@[ri as int];
        let target = o.clients@[t];
        let f_start = spec_frame(
            crate::tokens::MAP_START_TIMER.0,
            crate::tokens::MAP_START_TIMER.1,
            crate::bytearray::bool_byte(start),
        );
        assert forall|j: int|
            0 <= j < server.clients@.len() implies (server.clients@[j] == (#[trigger] cs5[j]) || (
        server.clients@[j].wf() && server.clients@[j].id == cs5[j].id && server.clients@[j].conn
            == cs5[j].conn)) by {
            if crate::room::spec_delivery(cs5[j], server.clients@[j], f_start) {
            }
        }
        lemma_clients_frame(cs5, server.clients@);
        assert forall|j: int|
            0 <= j < server.clients@.len() implies (Client::same_identity(
            cs5[j],
            #[trigger] server.clients@[j],
        ) && Client::same_round_flags(cs5[j], server.clients@[j])) by {
            if crate::room::spec_delivery(cs5[j], server.clients@[j], f_start) {
            }
        }
        assert(spec_clients_pres(cs5, server.clients@));
        lemma_pres_trans(old(server).clients@, cs5, server.clients@);
        // assemble the whole-round effect
        let frames = spec_intro_frames(
            oroom,
            spec_new_map_flag(oroom),
            spec_custom_map_flag(oroom),
            crate::bytearray::u16_be((oroom.members@.len() as i16) as u16) + spec_player_list(
                o.clients@,
                oroom.members@,
            ),
            sync_code,
        );
        assert(start == spec_start_flag(oroom, target));
        if !target.is_closed {
            assert(cs5[t].queue() == target.queue() + frames);
            if oroom.members@.contains(target.id) {
                assert(crate::room::spec_delivery(cs5[t], server.clients@[t], f_start));
                assert(server.clients@[t].queue() =~= target.queue() + frames + seq![f_start]);
            } else {
                assert(server.clients@[t] == cs5[t]);
                assert(server.clients@[t].queue() =~= target.queue() + frames
                    + Seq::<Seq<u8>>::empty());
            }
        }
        assert forall|j: int|
            0 <= j < o.clients@.len() && j != t implies (if oroom.members@.contains(
                (#[trigger] o.clients@[j]).id,
            ) {
                crate::room::spec_delivery(o.clients@[j], server.clients@[j], f_start)
            } else {
                server.clients@[j] == o.clients@[j]
            }) by {
            assert(cs5[j] == o.clients@[j]);
        }
        assert(spec_start_play_effect(o, *server, t, ri as int));
    }
}

/// Setting one session's round start time moves nothing else.
proof fn lemma_start_time_step(orig: Seq<Client>, cur: Seq<Client>, t: int)
    requires
        orig.len() == cur.len(),
        0 <= t < orig.len(),
        unique_nonzero_ids(orig),
        forall|j: int| 0 <= j < orig.len() ==> (#[trigger] orig[j]).wf(),
        forall|j: int| 0 <= j < cur.len() && j != t ==> cur[j] == #[trigger] orig[j],
        cur[t] == (Client { start_time: cur[t].start_time, ..orig[t] }),
    ensures
        unique_nonzero_ids(cur),
        spec_clients_pres(orig, cur),
        forall|j: int|
            0 <= j < cur.len() ==> ((#[trigger] cur[j]).queue() == orig[j].queue()
                && cur[j].is_closed == orig[j].is_closed && cur[j].id == orig[j].id && cur[j].conn
                == orig[j].conn && cur[j].wf()),
{
    assert forall|j: int|
        0 <= j < cur.len() implies ((#[trigger] cur[j]).queue() == orig[j].queue()
        && cur[j].is_closed == orig[j].is_closed && cur[j].id == orig[j].id && cur[j].conn
        == orig[j].conn && cur[j].wf() && Client::same_identity(orig[j], cur[j])
        && Client::same_round_flags(orig[j], cur[j])) by {
        if j != t {
            assert(cur[j] == orig[j]);
        }
    }
}

/// The opening frames only read fields the sync pick leaves alone.
proof fn lemma_intro_frames_sync_invariant(
    a: Room,
    b: Room,
    new_map: bool,
    custom_map: bool,
    list_payload: Seq<u8>,
    sync_code: i32,
)
    requires
        crate::room::same_except_sync(a, b),
    ensures
        spec_intro_frames(a, new_map, custom_map, list_payload, sync_code) == spec_intro_frames(
            b,
            new_map,
            custom_map,
            list_payload,
            sync_code,
        ),
        crate::session::spec_zlib_len(a, custom_map) == crate::session::spec_zlib_len(
            b,
            custom_map,
        ),
{
    assert(crate::session::spec_new_map_payload(a, a.members@.len() as i16, new_map, custom_map)
        =~= crate::session::spec_new_map_payload(b, b.members@.len() as i16, new_map, custom_map));
    assert(spec_intro_frames(a, new_map, custom_map, list_payload, sync_code)
        =~= spec_intro_frames(b, new_map, custom_map, list_payload, sync_code));
}

/// The wire image of the legacy death notice/// The wire image of the legacy death notice/// The wire image of the legacy death notice for a player and its score.
pub open spec fn spec_death_packet(id: u32, score: u16) -> Seq<u8> {
    crate::bytearray::u16_be(9) + seq![
        1u8,
        crate::tokens::OLD_PLAYER_DIED.0,
        crate::tokens::OLD_PLAYER_DIED.1,
    ] + crate::bytearray::u32_be(id) + crate::bytearray::u16_be(score)
}

/// One more death on a score, saturating at the field's width.
pub open spec fn spec_bump_score(s: u16) -> u16 {
    if s < 65535 {
        (s + 1) as u16
    } else {
        s
    }
}

/// Marks a session eliminated: one more death on its score, its cheese
/// dropped, and the legacy death notice fanned out to its room.
pub fn die(server: &mut Server, client_id: u32)
    requires
        old(server).wf(),
    ensures
        final(server).wf(),
        spec_play_frame(*old(server), *final(server)),
        final(server).rooms == old(server).rooms,
        spec_find_id(old(server).clients@, client_id) is None ==> *final(server) == *old(server),
        forall|t: int|
            spec_find_id(old(server).clients@, client_id) == Some(t) ==> spec_die_effect(
                *old(server),
                *final(server),
                client_id,
                t,
            ),
        forall|t: int|
            spec_find_id(old(server).clients@, client_id) == Some(t) && ((
            #[trigger] old(server).clients@[t]).room is None || (forall|r: int|
                0 <= r < old(server).rooms@.len() ==> Some((#[trigger] old(server).rooms@[r]).id)
                    != old(server).clients@[t].room)) ==> ((forall|w: int|
                0 <= w < old(server).clients@.len() && w != t ==> #[trigger] final(server).clients@[w] == old(server).clients@[w]) && final(server).clients@[t].queue()
                == old(server).clients@[t].queue()),
{
    let ci = match find_client(&server.clients, client_id) {
        Some(i) => i,
        None => {
            return ;
        },
    };
    {
        let c = &mut server.clients[ci];
        c.score = if c.score < 65535 {
            c.score + 1
        } else {
            c.score
        };
        c.has_cheese = false;
        c.is_dead = true;
    }
    proof {
        assert forall|j: int| 0 <= j < server.clients@.len() implies ((
        #[trigger] server.clients@[j]).wf() && server.clients@[j].id == old(server).clients@[j].id && server.clients@[j].conn == old(server).clients@[j].conn) by {
            if j != ci {
                assert(server.clients@[j] == old(server).clients@[j]);
            }
        }
    }
    let rid = match server.clients[ci].room {
        Some(r) => r,
        None => {
            return ;
        },
    };
    let ri = match server.find_room(rid) {
        Some(i) => i,
        None => {
            return ;
        },
    };
    let idv = server.clients[ci].id;
    let score = server.clients[ci].score;
    let mut fields: Vec<crate::utils::OldData> = Vec::new();
    fields.push(crate::utils::OldData::Integer(#[verifier::truncate] (idv as i32)));
    fields.push(crate::utils::OldData::Short(#[verifier::truncate] (score as i16)));
    proof {
        reveal_with_fuel(crate::session::spec_old_fields, 4);
        assert(fields@.drop_last().drop_last() =~= Seq::<crate::utils::OldData>::empty());
        assert(fields@.drop_last() =~= seq![fields@[0]]);
        assert(((idv as i32) as u32) == idv) by (bit_vector);
        assert(((score as i16) as u16) == score) by (bit_vector);
        assert(crate::session::spec_old_packet(crate::tokens::OLD_PLAYER_DIED, fields@)
            =~= spec_death_packet(idv, score));
    }
    let ghost csb = server.clients@;
    let ghost fieldsv = fields@;
    let room = &server.rooms[ri];
    room.send_old_data(&mut server.clients, crate::tokens::OLD_PLAYER_DIED, fields);
    proof {
        assert forall|j: int|
            0 <= j < server.clients@.len() implies (server.clients@[j] == (#[trigger] csb[j]) || (
        server.clients@[j].wf() && server.clients@[j].id == csb[j].id && server.clients@[j].conn
            == csb[j].conn)) by {
            if crate::room::spec_delivery(
                csb[j],
                server.clients@[j],
                spec_frame(
                    1,
                    1,
                    crate::session::spec_old_packet(crate::tokens::OLD_PLAYER_DIED, fieldsv),
                ),
            ) {
            }
        }
        lemma_clients_frame(csb, server.clients@);
    }
}

/// What a death report does, given the index of the session it names: the
/// target's flags and score move, and when its room resolves, every member
/// open to receive gets the death notice naming the new score.
pub open spec fn spec_die_effect(o: Server, n: Server, client_id: u32, t: int) -> bool {
    let c0 = o.clients@[t];
    let c1 = n.clients@[t];
    let frame = spec_frame(1, 1, spec_death_packet(c0.id, spec_bump_score(c0.score)));
    &&& c1.is_dead
    &&& !c1.has_cheese
    &&& c1.score == spec_bump_score(c0.score)
    &&& Client::same_identity(c0, c1)
    &&& match c0.room {
        None => true,
        Some(rid) => forall|r: int|
            0 <= r < o.rooms@.len() && (#[trigger] o.rooms@[r]).id == rid ==> {
                &&& (forall|j: int|
                    0 <= j < o.clients@.len() && j != t ==> (if o.rooms@[r].members@.contains(
                        (#[trigger] o.clients@[j]).id,
                    ) {
                        crate::room::spec_delivery(o.clients@[j], n.clients@[j], frame)
                    } else {
                        n.clients@[j] == o.clients@[j]
                    }))
                &&& (o.rooms@[r].members@.contains(c0.id) && !c0.is_closed ==> c1.queue()
                    == c0.queue().push(frame))
                &&& (!o.rooms@[r].members@.contains(c0.id) ==> c1.queue() == c0.queue())
            },
    }
}

/// Records a cheese grab: permits the room's next map change, tells the
/// room on a first grab, and walks the tutorial step when the room is a
/// tutorial.
#[verifier::rlimit(100)]
#[verifier::spinoff_prover]
pub fn get_cheese(server: &mut Server, client_id: u32)
    requires
        old(server).wf(),
    ensures
        final(server).wf(),
        spec_registry_frame(*old(server), *final(server)),
        spec_find_id(old(server).clients@, client_id) is None ==> *final(server) == *old(server),
        forall|t: int|
            spec_find_id(old(server).clients@, client_id) == Some(t) ==> spec_cheese_effect(
                *old(server),
                *final(server),
                t,
            ),
        forall|t: int|
            spec_find_id(old(server).clients@, client_id) == Some(t) && ((
            #[trigger] old(server).clients@[t]).room is None || (forall|r: int|
                0 <= r < old(server).rooms@.len() ==> Some((#[trigger] old(server).rooms@[r]).id)
                    != old(server).clients@[t].room)) ==> *final(server) == *old(server),
{
    let ci = match find_client(&server.clients, client_id) {
        Some(i) => i,
        None => {
            return ;
        },
    };
    let rid = match server.clients[ci].room {
        Some(r) => r,
        None => {
            return ;
        },
    };
    let ri = match server.find_room(rid) {
        Some(i) => i,
        None => {
            return ;
        },
    };
    server.rooms[ri].can_change_map = true;
    proof {
        assert forall|r: int| 0 <= r < server.rooms@.len() implies ((#[trigger] server.rooms@[
            r
        ]).wf() && server.rooms@[r].id == old(server).rooms@[r].id) by {
            if r != ri {
                assert(server.rooms@[r] == old(server).rooms@[r]);
            }
        }
        assert forall|r: int|
            0 <= r < old(server).rooms@.len() && (#[trigger] old(server).rooms@[r]).id == rid
                implies r == ri as int by {
            if r != ri {
                assert(old(server).rooms@[r].id == old(server).rooms@[ri as int].id);
                assert(false);
            }
        }
    }
    if !server.clients[ci].has_cheese {
        let idv = server.clients[ci].id;
        let data = ByteArray::new().write_u32(idv).write_bool(true);
        let ghost csb = server.clients@;
        let ghost datav = data@;
        proof {
            assert(datav =~= crate::bytearray::u32_be(idv) + crate::bytearray::bool_byte(true));
        }
        {
            let room = &server.rooms[ri];
            room.send_data(&mut server.clients, crate::tokens::PLAYER_GET_CHEESE, data);
        }
        proof {
            assert forall|j: int|
                0 <= j < server.clients@.len() implies (server.clients@[j] == (#[trigger] csb[j])
                || (server.clients@[j].wf() && server.clients@[j].id == csb[j].id
                && server.clients@[j].conn == csb[j].conn)) by {
                if crate::room::spec_delivery(
                    csb[j],
                    server.clients@[j],
                    spec_frame(
                        crate::tokens::PLAYER_GET_CHEESE.0,
                        crate::tokens::PLAYER_GET_CHEESE.1,
                        datav,
                    ),
                ) {
                }
            }
            lemma_clients_frame(csb, server.clients@);
        }
        let ghost csc = server.clients@;
        server.clients[ci].has_cheese = true;
        proof {
            assert forall|j: int|
                0 <= j < server.clients@.len() implies (server.clients@[j] == (#[trigger] csc[j])
                || (server.clients@[j].wf() && server.clients@[j].id == csc[j].id
                && server.clients@[j].conn == csc[j].conn)) by {}
            lemma_clients_frame(csc, server.clients@);
        }
        let mt = server.rooms[ri].map_type;
        if mt == crate::room::MapType::Tutorial {
            let ghost csd = server.clients@;
            server.clients[ci].send_data(crate::tokens::TUTORIAL, ByteArray::new().write_i8(1));
            proof {
                assert forall|j: int|
                    0 <= j < server.clients@.len() implies (server.clients@[j] == (
                #[trigger] csd[j]) || (server.clients@[j].wf() && server.clients@[j].id == csd[
                    j
                ].id && server.clients@[j].conn == csd[j].conn)) by {}
                lemma_clients_frame(csd, server.clients@);
            }
        }
    }
    proof {
        let t = ci as int;
        let o = *old(server);
        let c0 = o.clients@[t];
        let c1 = server.clients@[t];
        let frame = spec_frame(
            crate::tokens::PLAYER_GET_CHEESE.0,
            crate::tokens::PLAYER_GET_CHEESE.1,
            crate::bytearray::u32_be(c0.id) + crate::bytearray::bool_byte(true),
        );
        let tut_frame = spec_frame(crate::tokens::TUTORIAL.0, crate::tokens::TUTORIAL.1, seq![1u8]);
        let member = o.rooms@[ri as int].members@.contains(c0.id);
        let tutorial = o.rooms@[ri as int].map_type == crate::room::MapType::Tutorial;
        if !c0.has_cheese && !c0.is_closed {
            if member {
                if tutorial {
                    assert(c1.queue() =~= c0.queue() + seq![frame] + seq![tut_frame]);
                } else {
                    assert(c1.queue() =~= c0.queue() + seq![frame]
                        + Seq::<Seq<u8>>::empty());
                }
            } else {
                if tutorial {
                    assert(c1.queue() =~= c0.queue() + Seq::<Seq<u8>>::empty() + seq![tut_frame]);
                } else {
                    assert(c1.queue() =~= c0.queue() + Seq::<Seq<u8>>::empty()
                        + Seq::<Seq<u8>>::empty());
                }
            }
        }
        assert(spec_cheese_effect(o, *server, t));
    }
}

/// What a cheese grab does, given the index of the session that grabbed:
/// its room permits the next map change; a first grab flags the grabber,
/// announces it to every member open to receive, and walks the tutorial
/// step in tutorial rooms; a repeated grab moves nothing else.
pub open spec fn spec_cheese_effect(o: Server, n: Server, t: int) -> bool {
    let c0 = o.clients@[t];
    let c1 = n.clients@[t];
    let frame = spec_frame(
        crate::tokens::PLAYER_GET_CHEESE.0,
        crate::tokens::PLAYER_GET_CHEESE.1,
        crate::bytearray::u32_be(c0.id) + crate::bytearray::bool_byte(true),
    );
    let tut_frame = spec_frame(crate::tokens::TUTORIAL.0, crate::tokens::TUTORIAL.1, seq![1u8]);
    match c0.room {
        None => n == o,
        Some(rid) => forall|r: int|
            0 <= r < o.rooms@.len() && (#[trigger] o.rooms@[r]).id == rid ==> {
                let tutorial = o.rooms@[r].map_type == crate::room::MapType::Tutorial;
                &&& n.rooms@[r].can_change_map
                &&& crate::room::same_except_gate(o.rooms@[r], n.rooms@[r])
                &&& (c0.has_cheese ==> forall|j: int|
                    0 <= j < o.clients@.len() ==> #[trigger] n.clients@[j] == o.clients@[j])
                &&& (!c0.has_cheese ==> {
                    &&& c1.has_cheese
                    &&& Client::same_identity(c0, c1)
                    &&& (forall|j: int|
                        0 <= j < o.clients@.len() && j != t ==> (if o.rooms@[r].members@.contains(
                            (#[trigger] o.clients@[j]).id,
                        ) {
                            crate::room::spec_delivery(o.clients@[j], n.clients@[j], frame)
                        } else {
                            n.clients@[j] == o.clients@[j]
                        }))
                    &&& (!c0.is_closed ==> c1.queue() == c0.queue() + (if o.rooms@[
                        r
                    ].members@.contains(c0.id) {
                        seq![frame]
                    } else {
                        Seq::<Seq<u8>>::empty()
                    }) + (if tutorial {
                        seq![tut_frame]
                    } else {
                        Seq::<Seq<u8>>::empty()
                    }))
                })
            },
    }
}

/// The respawn announcement for a newcomer: its player data as it enters
/// (dead), with the respawn trailer.
pub open spec fn spec_respawn_frame(c: Client) -> Seq<u8> {
    spec_frame(
        crate::tokens::PLAYER_RESPAWN.0,
        crate::tokens::PLAYER_RESPAWN.1,
        (Client { is_dead: true, ..c }).spec_player_data() + crate::bytearray::bool_byte(false)
            + crate::bytearray::bool_byte(true),
    )
}

/// What joining a room does, given the index of the room: the id is
/// appended to the member list (in insertion order), and in a room already
/// past its first round the newcomer is marked dead, announced to the other
/// open members with a respawn frame, and spawned into the running round.
pub open spec fn spec_add_client_effect(o: Server, n: Server, r: int, client_id: u32) -> bool {
    let room = o.rooms@[r];
    &&& (!room.members@.contains(client_id) && room.members@.len() < 32767 ==> n.rooms@[
        r
    ].members@ == room.members@.push(client_id))
    &&& (room.members@.contains(client_id) ==> n.rooms@[r].members == room.members)
    &&& (!room.is_new ==> forall|j: int|
        0 <= j < o.clients@.len() && (#[trigger] o.clients@[j]).id == client_id ==> {
            let respawn = spec_respawn_frame(o.clients@[j]);
            &&& n.clients@[j].is_dead
            &&& (o.clients@[j].room == Some(room.id) ==> (forall|w: int|
                0 <= w < o.clients@.len() && w != j && room.members@.contains(
                    (#[trigger] o.clients@[w]).id,
                ) && !o.clients@[w].is_closed ==> exists|suf: Seq<Seq<u8>>|
                    n.clients@[w].queue() == #[trigger] (o.clients@[w].queue() + seq![respawn]
                        + suf)))
            &&& (o.clients@[j].room == Some(room.id) && !o.clients@[j].is_closed
                ==> spec_queue_has_intro(o.clients@[j].queue(), n.clients@[j].queue(), room))
        })
}

/// Assembles the announce-and-spawn outcome from the broadcast snapshot
/// and the spawn call's contract.
#[verifier::rlimit(100)]
#[verifier::spinoff_prover]
proof fn lemma_announce_wrapup(
    o: Server,
    sp: Server,
    curs: Server,
    ri: int,
    ci: int,
    client_id: u32,
)
    requires
        0 <= ri < o.rooms@.len(),
        0 <= ci < o.clients@.len(),
        client_id >= 1,
        o.clients@[ci].id == client_id,
        sp.clients@.len() == o.clients@.len(),
        curs.clients@.len() == sp.clients@.len(),
        sp.rooms@ == o.rooms@,
        forall|w: int|
            0 <= w < sp.clients@.len() ==> (#[trigger] sp.clients@[w]).id == o.clients@[w].id,
        sp.clients@[ci].queue() == o.clients@[ci].queue(),
        sp.clients@[ci].room == o.clients@[ci].room,
        sp.clients@[ci].is_closed == o.clients@[ci].is_closed,
        forall|w: int|
            0 <= w < o.clients@.len() && w != ci && o.rooms@[ri].members@.contains(
                (#[trigger] o.clients@[w]).id,
            ) && o.clients@[w].id != client_id && !o.clients@[w].is_closed
                ==> sp.clients@[w].queue() == o.clients@[w].queue().push(
                spec_respawn_frame(o.clients@[ci]),
            ),
        forall|w: int|
            0 <= w < o.clients@.len() ==> (#[trigger] o.clients@[w]).is_closed == sp.clients@[
                w
            ].is_closed,
        // the spawn call's contract
        spec_find_id(sp.clients@, client_id) is None ==> curs == sp,
        forall|t: int|
            spec_find_id(sp.clients@, client_id) == Some(t) && (sp.clients@[t].room is None || (
            forall|r: int|
                0 <= r < sp.rooms@.len() ==> Some((#[trigger] sp.rooms@[r]).id)
                    != sp.clients@[t].room)) ==> forall|j: int|
                0 <= j < curs.clients@.len() ==> (#[trigger] curs.clients@[j]).queue()
                    == sp.clients@[j].queue(),
        forall|t: int, r: int|
            spec_find_id(sp.clients@, client_id) == Some(t) && client_id != 0 && 0 <= r
                < sp.rooms@.len() && sp.clients@[t].room == Some((#[trigger] sp.rooms@[r]).id)
                ==> #[trigger] spec_start_play_effect(sp, curs, t, r),
        // only one session carries the id
        forall|w: int|
            0 <= w < o.clients@.len() && w != ci ==> (#[trigger] o.clients@[w]).id != client_id,
        forall|a: int, b: int|
            0 <= a < b < o.rooms@.len() ==> (#[trigger] o.rooms@[a]).id != (
            #[trigger] o.rooms@[b]).id,
    ensures
        forall|w: int|
            0 <= w < o.clients@.len() && w != ci && o.rooms@[ri].members@.contains(
                (#[trigger] o.clients@[w]).id,
            ) && o.clients@[w].id != client_id && !o.clients@[w].is_closed ==> exists|
                suf: Seq<Seq<u8>>,
            |
                curs.clients@[w].queue() == #[trigger] (o.clients@[w].queue() + seq![
                    spec_respawn_frame(o.clients@[ci]),
                ] + suf),
        o.clients@[ci].room == Some(o.rooms@[ri].id) && !o.clients@[ci].is_closed
            ==> spec_queue_has_intro(
            o.clients@[ci].queue(),
            curs.clients@[ci].queue(),
            o.rooms@[ri],
        ),
{
    let cs2 = sp.clients@;
    lemma_spawn_queue_growth(sp, curs, client_id);
    crate::session::lemma_find_id_some(cs2, client_id);
    assert forall|w: int|
        0 <= w < o.clients@.len() && w != ci && o.rooms@[ri].members@.contains(
            (#[trigger] o.clients@[w]).id,
        ) && o.clients@[w].id != client_id && !o.clients@[w].is_closed implies exists|
        suf: Seq<Seq<u8>>,
    |
        curs.clients@[w].queue() == #[trigger] (o.clients@[w].queue() + seq![
            spec_respawn_frame(o.clients@[ci]),
        ] + suf) by {
        assert(cs2[w].queue() == o.clients@[w].queue().push(spec_respawn_frame(o.clients@[ci])));
        assert(spec_queue_prefix(cs2[w].queue(), curs.clients@[w].queue()));
        let suf = curs.clients@[w].queue().skip(cs2[w].queue().len() as int);
        assert(curs.clients@[w].queue() =~= cs2[w].queue() + suf);
        assert(curs.clients@[w].queue() =~= o.clients@[w].queue() + seq![
            spec_respawn_frame(o.clients@[ci]),
        ] + suf);
    }
    if o.clients@[ci].room == Some(o.rooms@[ri].id) && !o.clients@[ci].is_closed {
        assert forall|w: int| 0 <= w < ci implies (#[trigger] cs2[w]).id != client_id by {
            if cs2[w].id == client_id {
                assert(o.clients@[w].id == client_id);
                assert(false);
            }
        }
        crate::session::lemma_find_id_characterise(cs2, client_id, ci);
        assert(cs2[ci].room == Some(sp.rooms@[ri].id));
        assert(spec_start_play_effect(sp, curs, ci, ri));
        let room2 = sp.rooms@[ri];
        let lp = crate::bytearray::u16_be((room2.members@.len() as i16) as u16)
            + spec_player_list(cs2, room2.members@);
        assert(spec_queue_prefix(o.clients@[ci].queue(), cs2[ci].queue())) by {
            assert(cs2[ci].queue().take(o.clients@[ci].queue().len() as int) =~= o.clients@[
                ci
            ].queue());
        }
        let sc = choose|sc: i32|
            curs.clients@[ci].queue() == (cs2[ci].queue() + #[trigger] spec_intro_frames(
                room2,
                spec_new_map_flag(room2),
                spec_custom_map_flag(room2),
                lp,
                sc,
            ) + (if room2.members@.contains(cs2[ci].id) {
                seq![
                    spec_frame(
                        crate::tokens::MAP_START_TIMER.0,
                        crate::tokens::MAP_START_TIMER.1,
                        crate::bytearray::bool_byte(spec_start_flag(room2, cs2[ci])),
                    ),
                ]
            } else {
                Seq::<Seq<u8>>::empty()
            }));
        lemma_has_intro_from_effect(
            o.clients@[ci].queue(),
            cs2[ci].queue(),
            curs.clients@[ci].queue(),
            room2,
            lp,
            sc,
            (if room2.members@.contains(cs2[ci].id) {
                seq![
                    spec_frame(
                        crate::tokens::MAP_START_TIMER.0,
                        crate::tokens::MAP_START_TIMER.1,
                        crate::bytearray::bool_byte(spec_start_flag(room2, cs2[ci])),
                    ),
                ]
            } else {
                Seq::<Seq<u8>>::empty()
            }),
        );
    }
}

/// Marks the newcomer dead, announces it to the other open members, and
/// spawns it into the running round; returns the newcomer's registry index.
#[verifier::rlimit(100)]
#[verifier::spinoff_prover]
fn announce_and_spawn(server: &mut Server, ri: usize, client_id: u32, now: u128) -> (found:
    Option<usize>)
    requires
        old(server).wf(),
        ri < old(server).rooms@.len(),
        client_id >= 1,
    ensures
        final(server).wf(),
        spec_registry_frame(*old(server), *final(server)),
        spec_profile_same(old(server).clients@, final(server).clients@),
        forall|r: int|
            0 <= r < final(server).rooms@.len() ==> crate::room::same_except_sync(
                #[trigger] old(server).rooms@[r],
                final(server).rooms@[r],
            ),
        found is None ==> (*final(server) == *old(server) && (forall|j: int|
            0 <= j < old(server).clients@.len() ==> (#[trigger] old(server).clients@[j]).id
                != client_id)),
        found is Some ==> {
            let ci = found.unwrap() as int;
            &&& 0 <= ci < old(server).clients@.len()
            &&& old(server).clients@[ci].id == client_id
            &&& final(server).clients@[ci].is_dead
            &&& (old(server).clients@[ci].room == Some(old(server).rooms@[ri as int].id) ==> (
            forall|w: int|
                0 <= w < old(server).clients@.len() && w != ci && old(server).rooms@[
                    ri as int
                ].members@.contains((#[trigger] old(server).clients@[w]).id) && !old(server).clients@[w].is_closed ==> exists|suf: Seq<Seq<u8>>|
                    final(server).clients@[w].queue() == #[trigger] (old(server).clients@[w].queue() + seq![
                        spec_respawn_frame(old(server).clients@[ci]),
                    ] + suf)))
            &&& (old(server).clients@[ci].room == Some(old(server).rooms@[ri as int].id) && !old(server).clients@[ci].is_closed ==> spec_queue_has_intro(
                old(server).clients@[ci].queue(),
                final(server).clients@[ci].queue(),
                old(server).rooms@[ri as int],
            ))
        },
{
    let ci = match find_client(&server.clients, client_id) {
        Some(i) => i,
        None => {
            return None;
        },
    };
    server.clients[ci].is_dead = true;
    proof {
        assert(server.clients@[ci as int] == (Client {
            is_dead: true,
            ..old(server).clients@[ci as int]
        }));
        assert forall|j: int|
            0 <= j < server.clients@.len() implies (server.clients@[j] == (#[trigger] old(server).clients@[j]) || (server.clients@[j].wf() && server.clients@[j].id == old(server).clients@[j].id && server.clients@[j].conn == old(server).clients@[j].conn
            && server.clients@[j].name == old(server).clients@[j].name && server.clients@[
            j
        ].is_guest == old(server).clients@[j].is_guest && server.clients@[j].priv_level == old(server).clients@[j].priv_level)) by {}
        lemma_clients_frame(old(server).clients@, server.clients@);
        crate::session::lemma_player_data_len(&server.clients@[ci as int]);
    }
    let pd = server.clients[ci].player_data();
    let b = ByteArray::new().write_bytes(pd.as_bytes()).write_bool(false).write_bool(true);
    let ghost cs1 = server.clients@;
    let ghost bv = b@;
    proof {
        assert(bv =~= (Client { is_dead: true, ..old(server).clients@[ci as int] }).spec_player_data()
            + crate::bytearray::bool_byte(false) + crate::bytearray::bool_byte(true));
    }
    let ghost respawn = spec_frame(
        crate::tokens::PLAYER_RESPAWN.0,
        crate::tokens::PLAYER_RESPAWN.1,
        bv,
    );
    server.send_data_except(client_id, crate::tokens::PLAYER_RESPAWN, b);
    proof {
        assert forall|j: int|
            0 <= j < server.clients@.len() implies (server.clients@[j] == (#[trigger] cs1[j]) || (
        server.clients@[j].wf() && server.clients@[j].id == cs1[j].id && server.clients@[j].conn
            == cs1[j].conn && server.clients@[j].name == cs1[j].name && server.clients@[
            j
        ].is_guest == cs1[j].is_guest && server.clients@[j].priv_level == cs1[
            j
        ].priv_level)) by {
            if crate::room::spec_delivery(cs1[j], server.clients@[j], respawn) {
            }
        }
        lemma_clients_frame(cs1, server.clients@);
    }
    let ghost sp = *server;
    start_play(server, client_id, now);
    proof {
        let o = *old(server);
        assert(respawn == spec_respawn_frame(o.clients@[ci as int]));
        assert(sp.clients@[ci as int].queue() == o.clients@[ci as int].queue());
        assert forall|w: int|
            0 <= w < o.clients@.len() && w != ci as int && o.rooms@[ri as int].members@.contains(
                (#[trigger] o.clients@[w]).id,
            ) && o.clients@[w].id != client_id && !o.clients@[w].is_closed implies sp.clients@[
            w
        ].queue() == o.clients@[w].queue().push(spec_respawn_frame(o.clients@[ci as int])) by {
            assert(crate::room::spec_delivery(cs1[w], sp.clients@[w], respawn));
            assert(cs1[w] == o.clients@[w]);
        }
        assert forall|w: int|
            0 <= w < o.clients@.len() && w != ci as int implies (#[trigger] o.clients@[w]).id
            != client_id by {
            assert(o.clients@[w].id != o.clients@[ci as int].id || o.clients@[w].id == 0);
        }
        lemma_announce_wrapup(o, sp, *server, ri as int, ci as int, client_id);
    }
    Some(ci)
}

/// Puts a session into a room's member list; in a room that already ran a
/// round the newcomer is marked dead, announced to the others, and spawned
/// into the running round.
#[verifier::rlimit(100)]
#[verifier::spinoff_prover]
pub fn add_client(server: &mut Server, room_id: u64, client_id: u32, now: u128)
    requires
        old(server).wf(),
        client_id >= 1,
    ensures
        final(server).wf(),
        spec_registry_frame(*old(server), *final(server)),
        spec_profile_same(old(server).clients@, final(server).clients@),
        forall|r: int|
            0 <= r < old(server).rooms@.len() && (#[trigger] old(server).rooms@[r]).id == room_id
                && old(server).rooms@[r].members@.len() < 32767
                ==> final(server).rooms@[r].members@.contains(client_id),
        forall|r: int|
            0 <= r < old(server).rooms@.len() && (#[trigger] old(server).rooms@[r]).id == room_id
                ==> spec_add_client_effect(*old(server), *final(server), r, client_id),
{
    let ri = match server.find_room(room_id) {
        Some(i) => i,
        None => {
            return ;
        },
    };
    proof {
        assert forall|r: int|
            0 <= r < old(server).rooms@.len() && (#[trigger] old(server).rooms@[r]).id == room_id
                implies r == ri as int by {
            assert(old(server).rooms@[r].id == old(server).rooms@[ri as int].id);
            if r != ri {
                assert(false);
            }
        }
    }
    if !server.rooms[ri].is_new {
        announce_and_spawn(server, ri, client_id, now);
    }
    proof {
        assert(server.rooms@[ri as int].id == room_id);
        assert(crate::room::same_except_sync(
            old(server).rooms@[ri as int],
            server.rooms@[ri as int],
        ));
    }
    let ghost rs1 = server.rooms@;
    server.rooms[ri].add_member(client_id);
    proof {
        assert forall|r: int| 0 <= r < server.rooms@.len() implies ((#[trigger] server.rooms@[
            r
        ]).wf() && server.rooms@[r].id == old(server).rooms@[r].id) by {
            if r != ri {
                assert(server.rooms@[r] == rs1[r]);
            }
        }
        assert forall|r: int|
            0 <= r < old(server).rooms@.len() && (#[trigger] old(server).rooms@[r]).id == room_id
                && old(server).rooms@[r].members@.len() < 32767 implies server.rooms@[
            r
        ].members@.contains(client_id) by {
            if r != ri {
                assert(false);
            }
            assert(rs1[ri as int].members == old(server).rooms@[ri as int].members);
            if !rs1[ri as int].members@.contains(client_id) {
                assert(server.rooms@[ri as int].members@ == rs1[ri as int].members@.push(
                    client_id,
                ));
                assert(server.rooms@[ri as int].members@.last() == client_id);
            }
        }
    }
}

/// The parts of a map change that the round loop's caller can observe/// The parts of a map change that the round loop's caller can observe on
/// the room afterwards: the advanced round code, the withdrawn map-change
/// permission, the category's fixed map and timer, and a sync target that
/// is either cleared or pointing at a member.
pub open spec fn spec_change_visible(o: Room, n: Room) -> bool {
    &&& n.id == o.id
    &&& n.name == o.name
    &&& n.lang == o.lang
    &&& n.members == o.members
    &&& n.last_round_code == ((o.last_round_code + 1) % 127) as i8
    &&& !n.can_change_map
    &&& (n.sync_code == -1 || n.sync_code == 0 || (exists|k: int|
        0 <= k < o.members@.len() && n.sync_code == (#[trigger] o.members@[k]) as i32))
    &&& (crate::room::spec_frozen_name(o.name@) ==> crate::room::frozen_map_type(n.map_type)
        && n.round_time == 0)
    &&& (spec_starts_with(o.name@, "\x03[Editeur] "@) ==> n.map_type
        == crate::room::MapType::Editor)
    &&& (spec_starts_with(o.name@, "\x03[Tutorial] "@) ==> n.map_code == 900 && n.map_type
        == crate::room::MapType::Tutorial)
    &&& (!spec_starts_with(o.name@, "\x03[Editeur] "@) && !spec_starts_with(
        o.name@,
        "\x03[Tutorial] "@,
    ) && spec_starts_with(o.name@, "\x03[Totem] "@) ==> n.map_code == 444 && n.map_type
        == crate::room::MapType::Totem)
    &&& (!crate::room::spec_frozen_name(o.name@) ==> n.round_time == (if spec_starts_with(
        o.name@,
        "bootcamp"@,
    ) {
        360int
    } else if !spec_starts_with(o.name@, "defilante"@) && spec_starts_with(o.name@, "racing"@) {
        63int
    } else {
        120int
    }))
}

/// Every member of the room has its round-scoped flags cleared.
pub open spec fn spec_members_reset(o: Server, n: Server, members: Seq<u32>) -> bool {
    forall|j: int|
        0 <= j < n.clients@.len() && members.contains((#[trigger] n.clients@[j]).id)
            && n.clients@[j].id != 0 ==> !n.clients@[j].has_cheese && !n.clients@[j].is_dead
            && !n.clients@[j].is_jumping && !n.clients@[j].is_moving_right
            && !n.clients@[j].is_moving_left && !n.clients@[j].is_shaman
}

/// Performs a map change: resolves the next map per the queued selector,
/// resets every member's round flags, respawns each into the new round,
/// and withdraws the map-change permission.
#[verifier::rlimit(100)]
#[verifier::spinoff_prover]
pub fn change_map(
    server: &mut Server,
    room_id: u64,
    vanilla_code: i32,
    vanilla_xml: String,
    now: u128,
)
    requires
        old(server).wf(),
    ensures
        final(server).wf(),
        spec_registry_frame(*old(server), *final(server)),
        forall|r: int|
            0 <= r < old(server).rooms@.len() && (#[trigger] old(server).rooms@[r]).id == room_id
                ==> (spec_change_visible(old(server).rooms@[r], final(server).rooms@[r])
                && final(server).rooms@[r].is_new == old(server).rooms@[r].is_new
                && (!crate::room::spec_frozen_name(old(server).rooms@[r].name@)
                ==> crate::room::spec_select_map_fields(
                old(server).rooms@[r],
                final(server).rooms@[r],
                vanilla_code,
                vanilla_xml@,
            )) && spec_members_reset(*old(server), *final(server), old(server).rooms@[r].members@)),
        forall|r: int, j: int|
            0 <= r < old(server).rooms@.len() && (#[trigger] old(server).rooms@[r]).id == room_id
                && 0 <= j < old(server).clients@.len() && old(server).rooms@[r].members@.contains(
                (#[trigger] old(server).clients@[j]).id,
            ) && old(server).clients@[j].id != 0 && !old(server).clients@[j].is_closed && old(server).clients@[j].room == Some(room_id) ==> spec_queue_has_intro(
                old(server).clients@[j].queue(),
                final(server).clients@[j].queue(),
                final(server).rooms@[r],
            ),
{
    let ri = match server.find_room(room_id) {
        Some(i) => i,
        None => {
            return ;
        },
    };
    proof {
        assert forall|r: int|
            0 <= r < old(server).rooms@.len() && (#[trigger] old(server).rooms@[r]).id == room_id
                implies r == ri as int by {
            assert(old(server).rooms@[r].id == old(server).rooms@[ri as int].id);
            if r != ri {
                assert(false);
            }
        }
    }
    server.rooms[ri].apply_change_map(vanilla_code, vanilla_xml, now);
    proof {
        assert forall|r: int| 0 <= r < server.rooms@.len() implies ((#[trigger] server.rooms@[
            r
        ]).wf() && server.rooms@[r].id == old(server).rooms@[r].id) by {
            if r != ri {
                assert(server.rooms@[r] == old(server).rooms@[r]);
            }
        }
    }
    let ghost mid = server.rooms@[ri as int];
    let members = server.rooms[ri].players();
    let mut k: usize = 0;
    proof {
        assert forall|j: int|
            0 <= j < server.clients@.len() implies (Client::same_identity(
            old(server).clients@[j],
            #[trigger] server.clients@[j],
        ) && spec_queue_prefix(old(server).clients@[j].queue(), server.clients@[j].queue())) by {
            assert(server.clients@[j] == old(server).clients@[j]);
            assert(server.clients@[j].queue().take(old(server).clients@[j].queue().len() as int)
                =~= old(server).clients@[j].queue());
        }
    }
    while k < members.len()
        invariant
            server.wf(),
            0 <= ri < server.rooms@.len(),
            server.rooms@.len() == old(server).rooms@.len(),
            server.clients@.len() == old(server).clients@.len(),
            server.ckey == old(server).ckey,
            server.version == old(server).version,
            server.last_player_id == old(server).last_player_id,
            server.last_room_id == old(server).last_room_id,
            server.last_conn == old(server).last_conn,
            members@ == mid.members@,
            members@.no_duplicates(),
            server.rooms@[ri as int].id == room_id,
            forall|j: int|
                0 <= j < server.clients@.len() ==> ((#[trigger] server.clients@[j]).id == old(server).clients@[j].id && server.clients@[j].conn == old(server).clients@[j].conn),
            forall|j: int|
                0 <= j < server.clients@.len() ==> Client::same_identity(
                    old(server).clients@[j],
                    #[trigger] server.clients@[j],
                ),
            forall|j: int|
                0 <= j < server.clients@.len() ==> spec_queue_prefix(
                    old(server).clients@[j].queue(),
                    (#[trigger] server.clients@[j]).queue(),
                ),
            forall|r: int|
                0 <= r < server.rooms@.len() ==> (#[trigger] server.rooms@[r]).id == old(server).rooms@[r].id,
            crate::room::same_except_sync(mid, server.rooms@[ri as int]),
            server.rooms@[ri as int].sync_code == -1 || server.rooms@[ri as int].sync_code == 0
                || (exists|p: int|
                0 <= p < mid.members@.len() && server.rooms@[ri as int].sync_code == (
                #[trigger] mid.members@[p]) as i32),
            forall|j: int|
                0 <= j < server.clients@.len() && members@.take(k as int).contains(
                    (#[trigger] server.clients@[j]).id,
                ) && server.clients@[j].id != 0 ==> (!server.clients@[j].has_cheese
                    && !server.clients@[j].is_dead && !server.clients@[j].is_jumping
                    && !server.clients@[j].is_moving_right && !server.clients@[j].is_moving_left
                    && !server.clients@[j].is_shaman),
            forall|j: int|
                0 <= j < server.clients@.len() && members@.take(k as int).contains(
                    (#[trigger] server.clients@[j]).id,
                ) && server.clients@[j].id != 0 && !old(server).clients@[j].is_closed && old(server).clients@[j].room == Some(room_id) ==> spec_queue_has_intro(
                    old(server).clients@[j].queue(),
                    server.clients@[j].queue(),
                    mid,
                ),
            k <= members@.len(),
        decreases members@.len() - k,
    {
        let ghost pre_members = members@.take(k as int);
        proof {
            assert(members@.take(k + 1) =~= pre_members.push(members@[k as int]));
        }
        let ghost cs1 = server.clients@;
        match find_client(&server.clients, members[k]) {
            Some(ci2) => {
                server.clients[ci2].reset_player();
                proof {
                    assert forall|j: int|
                        0 <= j < server.clients@.len() implies (server.clients@[j] == (
                    #[trigger] cs1[j]) || (server.clients@[j].wf() && Client::same_identity(
                        cs1[j],
                        server.clients@[j],
                    ) && server.clients@[j].queue() == cs1[j].queue())) by {}
                    lemma_clients_frame(cs1, server.clients@);
                }
            },
            None => {},
        }
        let ghost cs2 = server.clients@;
        let ghost rs2 = server.rooms@;
        let ghost sp = *server;
        start_play(server, members[k], now);
        proof {
            let m = members@[k as int];
            let callroom = rs2[ri as int];
            assert forall|r: int| 0 <= r < server.rooms@.len() implies (#[trigger] server.rooms@[
                r
            ]).id == old(server).rooms@[r].id by {
                assert(crate::room::same_except_sync(rs2[r], server.rooms@[r]));
                assert(rs2[r].id == old(server).rooms@[r].id);
            }
            assert(crate::room::same_except_sync(rs2[ri as int], server.rooms@[ri as int]));
            assert(crate::room::same_except_sync(mid, server.rooms@[ri as int]));
            assert(server.rooms@[ri as int].sync_code == -1 || server.rooms@[
                ri as int
            ].sync_code == 0 || (exists|p: int|
                0 <= p < mid.members@.len() && server.rooms@[ri as int].sync_code == (
                #[trigger] mid.members@[p]) as i32)) by {
                if server.rooms@[ri as int].sync_code != rs2[ri as int].sync_code {
                    assert(rs2[ri as int].members@ == mid.members@);
                }
            }
            // each queue only grew across this spawn, whatever the spawn
            // resolved to
            crate::session::lemma_find_id_some(cs2, m);
            assert forall|j: int|
                0 <= j < server.clients@.len() implies spec_queue_prefix(
                cs2[j].queue(),
                (#[trigger] server.clients@[j]).queue(),
            ) by {
                if spec_find_id(cs2, m) is None {
                    assert(*server == sp);
                    assert(server.clients@[j].queue().take(cs2[j].queue().len() as int) =~= cs2[
                        j
                    ].queue());
                } else {
                    let t = spec_find_id(cs2, m).unwrap();
                    match cs2[t].room {
                        None => {
                            assert(server.clients@[j].queue() == cs2[j].queue());
                            assert(server.clients@[j].queue().take(
                                cs2[j].queue().len() as int,
                            ) =~= cs2[j].queue());
                        },
                        Some(rid2) => {
                            if exists|r2: int|
                                0 <= r2 < rs2.len() && (#[trigger] rs2[r2]).id == rid2 {
                                let r2 = choose|r2: int|
                                    0 <= r2 < rs2.len() && (#[trigger] rs2[r2]).id == rid2;
                                assert(spec_start_play_effect(sp, *server, t, r2));
                                let room2 = rs2[r2];
                                if j == t {
                                    if cs2[t].is_closed {
                                        assert(server.clients@[j].queue() == cs2[j].queue());
                                        lemma_prefix_of_growth(
                                            cs2[j].queue(),
                                            server.clients@[j].queue(),
                                        );
                                    } else {
                                        let lp0 = crate::bytearray::u16_be(
                                            (room2.members@.len() as i16) as u16,
                                        ) + spec_player_list(cs2, room2.members@);
                                        let sc = choose|sc: i32|
                                            server.clients@[j].queue() == (cs2[j].queue()
                                                + #[trigger] spec_intro_frames(
                                                room2,
                                                spec_new_map_flag(room2),
                                                spec_custom_map_flag(room2),
                                                lp0,
                                                sc,
                                            ) + (if room2.members@.contains(cs2[j].id) {
                                                seq![
                                                    spec_frame(
                                                        crate::tokens::MAP_START_TIMER.0,
                                                        crate::tokens::MAP_START_TIMER.1,
                                                        crate::bytearray::bool_byte(
                                                            spec_start_flag(room2, cs2[t]),
                                                        ),
                                                    ),
                                                ]
                                            } else {
                                                Seq::<Seq<u8>>::empty()
                                            }));
                                        let frames0 = spec_intro_frames(
                                            room2,
                                            spec_new_map_flag(room2),
                                            spec_custom_map_flag(room2),
                                            lp0,
                                            sc,
                                        );
                                        let tail0: Seq<Seq<u8>> = if room2.members@.contains(
                                            cs2[j].id,
                                        ) {
                                            seq![
                                                spec_frame(
                                                    crate::tokens::MAP_START_TIMER.0,
                                                    crate::tokens::MAP_START_TIMER.1,
                                                    crate::bytearray::bool_byte(
                                                        spec_start_flag(room2, cs2[t]),
                                                    ),
                                                ),
                                            ]
                                        } else {
                                            Seq::<Seq<u8>>::empty()
                                        };
                                        assert(server.clients@[j].queue() == cs2[j].queue()
                                            + (frames0 + tail0)) by {
                                            assert(cs2[j].queue() + frames0 + tail0 =~= cs2[
                                                j
                                            ].queue() + (frames0 + tail0));
                                        }
                                        lemma_prefix_of_growth(
                                            cs2[j].queue(),
                                            server.clients@[j].queue(),
                                        );
                                    }
                                } else {
                                    if room2.members@.contains(cs2[j].id) {
                                        assert(crate::room::spec_delivery(
                                            cs2[j],
                                            server.clients@[j],
                                            spec_frame(
                                                crate::tokens::MAP_START_TIMER.0,
                                                crate::tokens::MAP_START_TIMER.1,
                                                crate::bytearray::bool_byte(
                                                    spec_start_flag(room2, cs2[t]),
                                                ),
                                            ),
                                        ));
                                        lemma_prefix_of_growth(cs2[j].queue(), server.clients@[j].queue());
                                    } else {
                                        assert(server.clients@[j] == cs2[j]);
                                        lemma_prefix_of_growth(cs2[j].queue(), server.clients@[j].queue());
                                    }
                                }
                            } else {
                                assert(server.clients@[j].queue() == cs2[j].queue());
                                lemma_prefix_of_growth(cs2[j].queue(), server.clients@[j].queue());
                            }
                        },
                    }
                }
            }
            assert forall|j: int|
                0 <= j < server.clients@.len() implies (Client::same_identity(
                old(server).clients@[j],
                #[trigger] server.clients@[j],
            ) && Client::same_round_flags(cs2[j], server.clients@[j]) && spec_queue_prefix(
                old(server).clients@[j].queue(),
                server.clients@[j].queue(),
            )) by {
                assert(Client::same_identity(cs2[j], server.clients@[j])
                    && Client::same_round_flags(cs2[j], server.clients@[j]));
                assert(spec_queue_prefix(old(server).clients@[j].queue(), cs2[j].queue()));
                assert(spec_queue_prefix(cs2[j].queue(), server.clients@[j].queue()));
                lemma_prefix_trans(
                    old(server).clients@[j].queue(),
                    cs2[j].queue(),
                    server.clients@[j].queue(),
                );
            }
            // the flag resets survive the spawn, and the fresh member's are set
            assert forall|j: int|
                0 <= j < server.clients@.len() && members@.take(k + 1).contains(
                    (#[trigger] server.clients@[j]).id,
                ) && server.clients@[j].id != 0 implies (!server.clients@[j].has_cheese
                && !server.clients@[j].is_dead && !server.clients@[j].is_jumping
                && !server.clients@[j].is_moving_right && !server.clients@[j].is_moving_left
                && !server.clients@[j].is_shaman) by {
                assert(cs2[j].id == server.clients@[j].id);
                if pre_members.contains(cs2[j].id) {
                } else {
                    assert(members@.take(k + 1)[k as int] == m);
                    assert(cs2[j].id == m);
                }
            }
            // the respawn lands its round-opening frames on the member, and
            // earlier members' openings survive the broadcast
            assert forall|j: int|
                0 <= j < server.clients@.len() && members@.take(k + 1).contains(
                    (#[trigger] server.clients@[j]).id,
                ) && server.clients@[j].id != 0 && !old(server).clients@[j].is_closed && old(server).clients@[j].room == Some(room_id) implies spec_queue_has_intro(
                old(server).clients@[j].queue(),
                server.clients@[j].queue(),
                mid,
            ) by {
                assert(cs2[j].id == old(server).clients@[j].id);
                assert(cs1[j].queue() == cs2[j].queue());
                if pre_members.contains(cs2[j].id) {
                    assert(spec_queue_has_intro(
                        old(server).clients@[j].queue(),
                        cs1[j].queue(),
                        mid,
                    ));
                    lemma_has_intro_extend(
                        old(server).clients@[j].queue(),
                        cs2[j].queue(),
                        server.clients@[j].queue(),
                        mid,
                    );
                } else {
                    assert(members@.take(k + 1)[k as int] == m);
                    assert(cs2[j].id == m);
                    // j is the member just spawned
                    assert forall|w: int| 0 <= w < j implies (#[trigger] cs2[w]).id != m by {
                        if cs2[w].id == m {
                            assert(old(server).clients@[w].id == m);
                            assert(old(server).clients@[j].id == m);
                            assert(false);
                        }
                    }
                    crate::session::lemma_find_id_characterise(cs2, m, j);
                    assert(cs2[j].room == Some(room_id));
                    assert(Some(rs2[ri as int].id) == cs2[j].room);
                    assert(spec_start_play_effect(sp, *server, j, ri as int));
                    let room = rs2[ri as int];
                    let lp = crate::bytearray::u16_be((room.members@.len() as i16) as u16)
                        + spec_player_list(cs2, room.members@);
                    let sync = choose|sc: i32|
                        server.clients@[j].queue() == (cs2[j].queue()
                            + #[trigger] spec_intro_frames(
                            room,
                            spec_new_map_flag(room),
                            spec_custom_map_flag(room),
                            lp,
                            sc,
                        ) + (if room.members@.contains(cs2[j].id) {
                            seq![
                                spec_frame(
                                    crate::tokens::MAP_START_TIMER.0,
                                    crate::tokens::MAP_START_TIMER.1,
                                    crate::bytearray::bool_byte(spec_start_flag(room, cs2[j])),
                                ),
                            ]
                        } else {
                            Seq::<Seq<u8>>::empty()
                        }));
                    assert(room.members@.contains(cs2[j].id));
                    lemma_has_intro_from_effect(
                        old(server).clients@[j].queue(),
                        cs2[j].queue(),
                        server.clients@[j].queue(),
                        room,
                        lp,
                        sync,
                        seq![
                            spec_frame(
                                crate::tokens::MAP_START_TIMER.0,
                                crate::tokens::MAP_START_TIMER.1,
                                crate::bytearray::bool_byte(spec_start_flag(room, cs2[j])),
                            ),
                        ],
                    );
                    lemma_has_intro_room_swap(
                        old(server).clients@[j].queue(),
                        server.clients@[j].queue(),
                        room,
                        mid,
                    );
                }
            }
        }
        k = k + 1;
    }
    server.rooms[ri].can_change_map = false;
    proof {
        assert forall|r: int| 0 <= r < server.rooms@.len() implies ((#[trigger] server.rooms@[
            r
        ]).wf() && server.rooms@[r].id == old(server).rooms@[r].id) by {}
        assert(members@.take(members@.len() as int) =~= members@);
        assert forall|r: int|
            0 <= r < old(server).rooms@.len() && (#[trigger] old(server).rooms@[r]).id == room_id
                implies (spec_change_visible(old(server).rooms@[r], server.rooms@[r])
                && server.rooms@[r].is_new == old(server).rooms@[r].is_new
                && (!crate::room::spec_frozen_name(old(server).rooms@[r].name@)
                ==> crate::room::spec_select_map_fields(
                old(server).rooms@[r],
                server.rooms@[r],
                vanilla_code,
                vanilla_xml@,
            )) && spec_members_reset(*old(server), *server, old(server).rooms@[r].members@)) by {
            if r != ri {
                assert(false);
            }
            assert(crate::room::spec_change_rel(
                old(server).rooms@[ri as int],
                mid,
                vanilla_code,
                vanilla_xml@,
                now,
            ));
            let nm = old(server).rooms@[ri as int].name@;
            reveal_strlit("\x03[Editeur] ");
            reveal_strlit("\x03[Tutorial] ");
            if spec_starts_with(nm, "\x03[Tutorial] "@) && spec_starts_with(
                nm,
                "\x03[Editeur] "@,
            ) {
                assert("\x03[Editeur] "@ =~= seq![
                    '\x03',
                    '[',
                    'E',
                    'd',
                    'i',
                    't',
                    'e',
                    'u',
                    'r',
                    ']',
                    ' ',
                ]);
                assert("\x03[Tutorial] "@ =~= seq![
                    '\x03',
                    '[',
                    'T',
                    'u',
                    't',
                    'o',
                    'r',
                    'i',
                    'a',
                    'l',
                    ']',
                    ' ',
                ]);
                assert(nm.take(11)[2] == nm[2]);
                assert(nm.take(12)[2] == nm[2]);
                assert(false);
            }
        }
        assert forall|r: int, j: int|
            0 <= r < old(server).rooms@.len() && (#[trigger] old(server).rooms@[r]).id == room_id
                && 0 <= j < old(server).clients@.len() && old(server).rooms@[r].members@.contains(
                (#[trigger] old(server).clients@[j]).id,
            ) && old(server).clients@[j].id != 0 && !old(server).clients@[j].is_closed && old(server).clients@[j].room == Some(room_id) implies spec_queue_has_intro(
            old(server).clients@[j].queue(),
            server.clients@[j].queue(),
            server.rooms@[r],
        ) by {
            if r != ri {
                assert(false);
            }
            assert(old(server).rooms@[ri as int].members@ == mid.members@);
            assert(server.clients@[j].id == old(server).clients@[j].id);
            assert(members@.contains(server.clients@[j].id));
            assert(spec_queue_has_intro(
                old(server).clients@[j].queue(),
                server.clients@[j].queue(),
                mid,
            ));
            lemma_has_intro_room_swap(
                old(server).clients@[j].queue(),
                server.clients@[j].queue(),
                mid,
                server.rooms@[ri as int],
            );
        }
    }
}

/// One round-loop step's outcome for its caller: keep ticking, a map change
/// was performed, or the room is frozen and the loop must stop.
pub enum TickStatus {
    Continued,
    MapChanged,
    Frozen,
}

/// The timer after a tick's decrement: it only falls while members exist.
pub open spec fn spec_tick_dec(o: Room) -> int {
    if o.members@.len() == 0 || o.round_time <= i16::MIN {
        o.round_time as int
    } else {
        o.round_time - 1
    }
}

/// Whether this tick pulls a racing room's timer to the final stretch.
pub open spec fn spec_tick_clamp(o: Room) -> bool {
    o.room_type == crate::room::RoomType::Racing && o.can_change_map && spec_tick_dec(o) > 20
}

/// One second of a room's round loop: the timer drops by one while members
/// exist, the racing clamp may pull it to the last stretch, and the trigger
/// condition decides between continuing, changing the map, and freezing.
#[verifier::rlimit(100)]
#[verifier::spinoff_prover]
pub fn tick(
    server: &mut Server,
    room_id: u64,
    vanilla_code: i32,
    vanilla_xml: String,
    now: u128,
) -> (r: TickStatus)
    requires
        old(server).wf(),
    ensures
        final(server).wf(),
        spec_registry_frame(*old(server), *final(server)),
        forall|ri: int|
            0 <= ri < old(server).rooms@.len() && (#[trigger] old(server).rooms@[ri]).id == room_id
                ==> spec_tick_outcome(
                *old(server),
                *final(server),
                ri,
                spec_alive_count(old(server).clients@, old(server).rooms@[ri].members@),
                r,
            ),
{
    let ri = match server.find_room(room_id) {
        Some(i) => i,
        None => {
            return TickStatus::Frozen;
        },
    };
    proof {
        assert forall|r2: int|
            0 <= r2 < old(server).rooms@.len() && (#[trigger] old(server).rooms@[r2]).id == room_id
                implies r2 == ri as int by {
            assert(old(server).rooms@[r2].id == old(server).rooms@[ri as int].id);
            if r2 != ri {
                assert(false);
            }
        }
    }
    {
        let room = &mut server.rooms[ri];
        if room.members.len() > 0 && room.round_time > i16::MIN {
            room.round_time = room.round_time - 1;
        }
    }
    proof {
        assert forall|r2: int| 0 <= r2 < server.rooms@.len() implies ((#[trigger] server.rooms@[
            r2
        ]).wf() && server.rooms@[r2].id == old(server).rooms@[r2].id) by {
            if r2 != ri {
                assert(server.rooms@[r2] == old(server).rooms@[r2]);
            }
        }
    }
    let alive = server.rooms[ri].alive(&server.clients);
    let dec = server.rooms[ri].round_time;
    let can_change = server.rooms[ri].can_change_map;
    let is_new = server.rooms[ri].is_new;
    let mt = server.rooms[ri].map_type;
    let rt_kind = server.rooms[ri].room_type;
    let clamped = rt_kind == crate::room::RoomType::Racing && can_change && dec > 20;
    let ghost cs_pre = server.clients@;
    if clamped {
        server.rooms[ri].round_time = 21;
        proof {
            assert forall|r2: int|
                0 <= r2 < server.rooms@.len() implies ((#[trigger] server.rooms@[r2]).wf()
                && server.rooms@[r2].id == old(server).rooms@[r2].id) by {
                if r2 != ri {
                    assert(server.rooms@[r2] == old(server).rooms@[r2]);
                }
            }
        }
        let data = ByteArray::new().write_i16(21);
        let ghost datav = data@;
        proof {
            assert(datav =~= crate::bytearray::u16_be(21));
        }
        {
            let room = &server.rooms[ri];
            room.send_data(&mut server.clients, crate::tokens::ROUND_TIME, data);
        }
        proof {
            assert forall|j: int|
                0 <= j < server.clients@.len() implies (server.clients@[j] == (
            #[trigger] cs_pre[j]) || (server.clients@[j].wf() && server.clients@[j].id == cs_pre[
                j
            ].id && server.clients@[j].conn == cs_pre[j].conn)) by {
                if crate::room::spec_delivery(
                    cs_pre[j],
                    server.clients@[j],
                    spec_frame(
                        crate::tokens::ROUND_TIME.0,
                        crate::tokens::ROUND_TIME.1,
                        crate::bytearray::u16_be(21),
                    ),
                ) {
                }
            }
            lemma_clients_frame(cs_pre, server.clients@);
        }
    }
    if is_new || alive <= 0 || (can_change && dec <= 0) {
        if is_new {
            server.rooms[ri].is_new = false;
            proof {
                assert forall|r2: int|
                    0 <= r2 < server.rooms@.len() implies ((#[trigger] server.rooms@[r2]).wf()
                    && server.rooms@[r2].id == old(server).rooms@[r2].id) by {
                    if r2 != ri {
                        assert(server.rooms@[r2] == old(server).rooms@[r2]);
                    }
                }
            }
        }
        let frozen = match mt {
            crate::room::MapType::Editor => true,
            crate::room::MapType::Totem => true,
            crate::room::MapType::Tutorial => true,
            _ => false,
        };
        if frozen {
            return TickStatus::Frozen;
        }
        change_map(server, room_id, vanilla_code, vanilla_xml, now);
        return TickStatus::MapChanged;
    }
    TickStatus::Continued
}

/// How one tick leaves a room, given the member-alive count it observed:
/// the status follows the trigger condition on the decremented timer, a
/// continuing or freezing room only moves its timer (broadcasting the
/// racing clamp when it applies), and a fired trigger on a thawed category
/// performs the visible parts of a map change.
pub open spec fn spec_tick_outcome(
    o: Server,
    n: Server,
    ri: int,
    alive: int,
    r: TickStatus,
) -> bool {
    let oroom = o.rooms@[ri];
    let dec = spec_tick_dec(oroom);
    let clamped: int = if spec_tick_clamp(oroom) {
        21
    } else {
        dec
    };
    let fired = crate::room::spec_trigger(oroom.is_new, alive, oroom.can_change_map, dec);
    let f21 = spec_frame(
        crate::tokens::ROUND_TIME.0,
        crate::tokens::ROUND_TIME.1,
        crate::bytearray::u16_be(21),
    );
    &&& r == (if fired {
        if crate::room::frozen_map_type(oroom.map_type) {
            TickStatus::Frozen
        } else {
            TickStatus::MapChanged
        }
    } else {
        TickStatus::Continued
    })
    &&& (r == TickStatus::Continued ==> n.rooms@[ri].round_time == clamped
        && crate::room::map_fields_unchanged(oroom, n.rooms@[ri]) && n.rooms@[ri].members
        == oroom.members && n.rooms@[ri].is_new == oroom.is_new && n.rooms@[ri].can_change_map
        == oroom.can_change_map && n.rooms@[ri].last_round_code == oroom.last_round_code)
    &&& (r == TickStatus::Frozen ==> crate::room::map_fields_unchanged(oroom, n.rooms@[ri])
        && n.rooms@[ri].round_time == clamped && n.rooms@[ri].members == oroom.members
        && !n.rooms@[ri].is_new && n.rooms@[ri].last_round_code == oroom.last_round_code)
    &&& ((r == TickStatus::Continued || r == TickStatus::Frozen) ==> forall|j: int|
        0 <= j < o.clients@.len() ==> (if spec_tick_clamp(oroom) && oroom.members@.contains(
            (#[trigger] o.clients@[j]).id,
        ) {
            crate::room::spec_delivery(o.clients@[j], n.clients@[j], f21)
        } else {
            n.clients@[j] == o.clients@[j]
        }))
    &&& (r == TickStatus::MapChanged ==> spec_change_visible(oroom, n.rooms@[ri]) && !n.rooms@[
        ri
    ].is_new && spec_members_reset(o, n, oroom.members@))
}

/// Joins a community prefix and a room name with the separator./// Joins a community prefix and a room name with the separator.
pub fn join_name(community: &str, name: &str) -> (r: String)
    requires
        encode_utf8(community@).len() <= 100,
        encode_utf8(name@).len() <= 64,
    ensures
        r@ == community@ + seq!['-'] + name@,
        encode_utf8(r@).len() <= 200,
{
    proof {
        reveal_strlit("-");
        assert("-"@ =~= seq!['-']);
        crate::text::lemma_encode_utf8_len(seq!['-']);
        crate::text::lemma_encode_utf8_concat(community@, seq!['-'] + name@);
        crate::text::lemma_encode_utf8_concat(seq!['-'], name@);
    }
    let r = community.to_owned().concat("-").concat(name);
    proof {
        assert(r@ =~= community@ + (seq!['-'] + name@));
        assert(community@ + (seq!['-'] + name@) =~= community@ + seq!['-'] + name@);
    }
    r
}

/// Sessions pairwise keep who they are: name, guest flag, privilege, id.
pub open spec fn spec_profile_same(a: Seq<Client>, b: Seq<Client>) -> bool {
    &&& a.len() == b.len()
    &&& (forall|j: int|
        0 <= j < a.len() ==> ((#[trigger] b[j]).name == a[j].name && b[j].is_guest
            == a[j].is_guest && b[j].priv_level == a[j].priv_level && b[j].id == a[j].id
            && b[j].conn == a[j].conn))
}

/// Queues one frame for the session behind a connection handle.
pub fn send_to_conn(server: &mut Server, conn: u64, tokens: (u8, u8), data: ByteArray)
    requires
        old(server).wf(),
        data@.len() < 0xffffffff,
    ensures
        final(server).wf(),
        spec_registry_frame(*old(server), *final(server)),
        spec_profile_same(old(server).clients@, final(server).clients@),
        final(server).rooms == old(server).rooms,
        forall|j: int|
            0 <= j < old(server).clients@.len() && (#[trigger] old(server).clients@[j]).conn
                != conn ==> final(server).clients@[j] == old(server).clients@[j],
        forall|j: int|
            0 <= j < old(server).clients@.len() && (#[trigger] old(server).clients@[j]).conn
                == conn ==> crate::room::spec_delivery(
                old(server).clients@[j],
                final(server).clients@[j],
                spec_frame(tokens.0, tokens.1, data@),
            ),
{
    if let Some(ci) = crate::session::find_conn(&server.clients, conn) {
        server.clients[ci].send_data(tokens, data);
        proof {
            assert forall|j: int|
                0 <= j < server.clients@.len() implies (server.clients@[j] == (#[trigger] old(server).clients@[j]) || (server.clients@[j].wf() && server.clients@[j].id == old(server).clients@[j].id && server.clients@[j].conn == old(server).clients@[j].conn)) by {}
            lemma_clients_frame(old(server).clients@, server.clients@);
            assert forall|j: int|
                0 <= j < old(server).clients@.len() && (#[trigger] old(server).clients@[j]).conn
                    == conn implies crate::room::spec_delivery(
                old(server).clients@[j],
                server.clients@[j],
                spec_frame(tokens.0, tokens.1, data@),
            ) by {
                if j != ci {
                    assert(old(server).clients@[j].conn != old(server).clients@[ci as int].conn);
                }
            }
            assert forall|j: int|
                0 <= j < server.clients@.len() implies ((#[trigger] server.clients@[j]).name
                == old(server).clients@[j].name && server.clients@[j].is_guest == old(server).clients@[j].is_guest && server.clients@[j].priv_level == old(server).clients@[j].priv_level) by {
                if server.clients@[j] != old(server).clients@[j] {
                    assert(crate::room::spec_delivery(
                        old(server).clients@[j],
                        server.clients@[j],
                        spec_frame(tokens.0, tokens.1, data@),
                    ));
                }
            }
        }
    }
}

/// Index of the room the session behind a connection handle is in.
pub fn room_of_conn(server: &Server, conn: u64) -> (r: Option<usize>)
    ensures
        r is Some ==> r.unwrap() < server.rooms@.len(),
{
    let ci = match crate::session::find_conn(&server.clients, conn) {
        Some(i) => i,
        None => {
            return None;
        },
    };
    let rid = match server.clients[ci].room {
        Some(r) => r,
        None => {
            return None;
        },
    };
    server.find_room(rid)
}

/// Queues one frame for every member of the room at this index.
pub fn broadcast_room(server: &mut Server, ri: usize, tokens: (u8, u8), data: ByteArray)
    requires
        old(server).wf(),
        ri < old(server).rooms@.len(),
        data@.len() < 0xffffffff,
    ensures
        final(server).wf(),
        spec_registry_frame(*old(server), *final(server)),
        spec_profile_same(old(server).clients@, final(server).clients@),
        final(server).rooms == old(server).rooms,
        forall|j: int|
            0 <= j < old(server).clients@.len() ==> (if old(server).rooms@[
                ri as int
            ].members@.contains((#[trigger] old(server).clients@[j]).id) {
                crate::room::spec_delivery(
                    old(server).clients@[j],
                    final(server).clients@[j],
                    spec_frame(tokens.0, tokens.1, data@),
                )
            } else {
                final(server).clients@[j] == old(server).clients@[j]
            }),
{
    let ghost datav = data@;
    {
        let room = &server.rooms[ri];
        room.send_data(&mut server.clients, tokens, data);
    }
    proof {
        assert forall|j: int|
            0 <= j < server.clients@.len() implies (server.clients@[j] == (#[trigger] old(server).clients@[j]) || (server.clients@[j].wf() && server.clients@[j].id == old(server).clients@[j].id && server.clients@[j].conn == old(server).clients@[j].conn
            && server.clients@[j].name == old(server).clients@[j].name
            && server.clients@[j].is_guest == old(server).clients@[j].is_guest
            && server.clients@[j].priv_level == old(server).clients@[j].priv_level)) by {
            if crate::room::spec_delivery(
                old(server).clients@[j],
                server.clients@[j],
                spec_frame(tokens.0, tokens.1, datav),
            ) {
            }
        }
        lemma_clients_frame(old(server).clients@, server.clients@);
    }
}

/// Queues one frame for every member of the room at this index except the
/// member with the given id.
pub fn broadcast_room_except(
    server: &mut Server,
    ri: usize,
    except_id: u32,
    tokens: (u8, u8),
    data: ByteArray,
)
    requires
        old(server).wf(),
        ri < old(server).rooms@.len(),
        data@.len() < 0xffffffff,
    ensures
        final(server).wf(),
        spec_registry_frame(*old(server), *final(server)),
        spec_profile_same(old(server).clients@, final(server).clients@),
        final(server).rooms == old(server).rooms,
        forall|j: int|
            0 <= j < old(server).clients@.len() ==> (if old(server).rooms@[
                ri as int
            ].members@.contains((#[trigger] old(server).clients@[j]).id) && old(server).clients@[j].id != except_id {
                crate::room::spec_delivery(
                    old(server).clients@[j],
                    final(server).clients@[j],
                    spec_frame(tokens.0, tokens.1, data@),
                )
            } else {
                final(server).clients@[j] == old(server).clients@[j]
            }),
{
    let ghost datav = data@;
    {
        let room = &server.rooms[ri];
        room.send_data_except(except_id, &mut server.clients, tokens, data);
    }
    proof {
        assert forall|j: int|
            0 <= j < server.clients@.len() implies (server.clients@[j] == (#[trigger] old(server).clients@[j]) || (server.clients@[j].wf() && server.clients@[j].id == old(server).clients@[j].id && server.clients@[j].conn == old(server).clients@[j].conn
            && server.clients@[j].name == old(server).clients@[j].name
            && server.clients@[j].is_guest == old(server).clients@[j].is_guest
            && server.clients@[j].priv_level == old(server).clients@[j].priv_level)) by {
            if crate::room::spec_delivery(
                old(server).clients@[j],
                server.clients@[j],
                spec_frame(tokens.0, tokens.1, datav),
            ) {
            }
        }
        lemma_clients_frame(old(server).clients@, server.clients@);
    }
}

/// The display name a room request resolves to: markup escaped, language-
/// prefixed unless the name is international or its owner is privileged,
/// special rooms renamed to their owner, in the order the passes run.
pub open spec fn spec_display_name(
    name: Seq<char>,
    lang: Seq<char>,
    priv_level: int,
    full: Seq<char>,
) -> Seq<char> {
    let escaped = crate::text::spec_replace_lt(name);
    let pre = if !spec_starts_with(escaped, seq!['*']) && !(encode_utf8(escaped).len() > 3
        && crate::text::spec_contains_str(escaped, seq!['-']) && priv_level >= 7) {
        lang + seq!['-'] + escaped
    } else {
        escaped
    };
    let n1 = if spec_starts_with(pre, "\x03[Editeur] "@) && !crate::text::spec_contains_str(
        pre,
        full,
    ) {
        lang + seq!['-'] + full
    } else {
        pre
    };
    let n2 = if spec_starts_with(n1, "\x03[Totem] "@) && !crate::text::spec_contains_str(
        n1,
        full,
    ) {
        lang + seq!['-'] + full
    } else {
        n1
    };
    if spec_starts_with(n2, "\x03[Tutorial] "@) && !crate::text::spec_contains_str(n2, full) {
        lang + seq!['-'] + full
    } else {
        n2
    }
}

/// Whether a display name counts as a standard room: a default-room prefix
/// or a numeric name.
pub open spec fn spec_standard_room(display: Seq<char>) -> bool {
    ||| spec_starts_with(display, "vanilla"@)
    ||| spec_starts_with(display, "survivor"@)
    ||| spec_starts_with(display, "racing"@)
    ||| spec_starts_with(display, "music"@)
    ||| spec_starts_with(display, "bootcamp"@)
    ||| spec_starts_with(display, "defilante"@)
    ||| spec_starts_with(display, "village"@)
    ||| crate::text::spec_parse_i32(crate::text::spec_trim(display)) is Some
}

/// The three frames a room entry queues for the entering session.
pub open spec fn spec_entry_frames(display: Seq<char>, lang: Seq<char>) -> Seq<Seq<u8>> {
    let lang_final = if spec_starts_with(display, seq!['*']) {
        "int"@
    } else {
        lang
    };
    seq![
        spec_frame(
            crate::tokens::ENTER_ROOM.0,
            crate::tokens::ENTER_ROOM.1,
            crate::bytearray::bool_byte(spec_standard_room(display))
                + crate::bytearray::utf_wire(display) + crate::bytearray::utf_wire(lang_final),
        ),
        spec_frame(crate::tokens::ROOM_SERVER.0, crate::tokens::ROOM_SERVER.1, seq![0u8]),
        spec_frame(
            crate::tokens::ROOM_TYPE.0,
            crate::tokens::ROOM_TYPE.1,
            seq![
                if crate::text::spec_contains_str(display, "music"@) {
                    11u8
                } else {
                    4u8
                },
            ],
        ),
    ]
}

/// Derives the display name of a room request for one session.
#[verifier::rlimit(100)]
#[verifier::spinoff_prover]
fn derive_display_name(name: &str, lang: &str, priv_level: i8, full: &str) -> (r: String)
    requires
        encode_utf8(name@).len() <= 1000,
        encode_utf8(lang@).len() <= 100,
        encode_utf8(full@).len() <= 2000,
    ensures
        r@ == spec_display_name(name@, lang@, priv_level as int, full@),
        encode_utf8(r@).len() <= 17000,
{
    let escaped = crate::text::replace_lt(name);
    proof {
        crate::text::lemma_encode_utf8_len(name@);
        crate::text::lemma_replace_lt_len(name@);
        crate::text::lemma_encode_utf8_len(escaped@);
        reveal_strlit("-");
        assert("-"@ =~= seq!['-']);
        reveal_strlit("*");
        assert("*"@ =~= seq!['*']);
    }
    let mut display = escaped;
    let byte_len = display.as_str().as_bytes().len();
    if !starts_with_str(display.as_str(), "*") && !(byte_len > 3 && crate::text::contains_str(
        display.as_str(),
        "-",
    ) && priv_level >= 7) {
        let ghost before = display@;
        display = lang.to_owned().concat("-").concat(display.as_str());
        proof {
            assert(display@ =~= lang@ + (seq!['-'] + before));
            assert(lang@ + (seq!['-'] + before) =~= lang@ + seq!['-'] + before);
            crate::text::lemma_encode_utf8_concat(lang@, seq!['-'] + before);
            crate::text::lemma_encode_utf8_concat(seq!['-'], before);
            crate::text::lemma_encode_utf8_len(seq!['-']);
        }
    }
    if starts_with_str(display.as_str(), "\x03[Editeur] ") && !crate::text::contains_str(
        display.as_str(),
        full,
    ) {
        display = lang.to_owned().concat("-").concat(full);
        proof {
            assert(display@ =~= lang@ + (seq!['-'] + full@));
            assert(lang@ + (seq!['-'] + full@) =~= lang@ + seq!['-'] + full@);
            crate::text::lemma_encode_utf8_concat(lang@, seq!['-'] + full@);
            crate::text::lemma_encode_utf8_concat(seq!['-'], full@);
            crate::text::lemma_encode_utf8_len(seq!['-']);
        }
    }
    if starts_with_str(display.as_str(), "\x03[Totem] ") && !crate::text::contains_str(
        display.as_str(),
        full,
    ) {
        display = lang.to_owned().concat("-").concat(full);
        proof {
            assert(display@ =~= lang@ + (seq!['-'] + full@));
            assert(lang@ + (seq!['-'] + full@) =~= lang@ + seq!['-'] + full@);
            crate::text::lemma_encode_utf8_concat(lang@, seq!['-'] + full@);
            crate::text::lemma_encode_utf8_concat(seq!['-'], full@);
            crate::text::lemma_encode_utf8_len(seq!['-']);
        }
    }
    if starts_with_str(display.as_str(), "\x03[Tutorial] ") && !crate::text::contains_str(
        display.as_str(),
        full,
    ) {
        display = lang.to_owned().concat("-").concat(full);
        proof {
            assert(display@ =~= lang@ + (seq!['-'] + full@));
            assert(lang@ + (seq!['-'] + full@) =~= lang@ + seq!['-'] + full@);
            crate::text::lemma_encode_utf8_concat(lang@, seq!['-'] + full@);
            crate::text::lemma_encode_utf8_concat(seq!['-'], full@);
            crate::text::lemma_encode_utf8_len(seq!['-']);
        }
    }
    display
}

/// Puts a session into the room it asked for: finds or creates the room,
/// derives the display name (markup escaped, language-prefixed unless
/// privileged, special rooms renamed to their owner, `*` names made
/// international), queues the three room-entry packets, and binds the
/// session to the room.
#[verifier::rlimit(100)]
#[verifier::spinoff_prover]
pub fn enter_room(server: &mut Server, client_id: u32, name: &str)
    requires
        old(server).wf(),
        encode_utf8(name@).len() <= 1000,
    ensures
        final(server).wf(),
        final(server).ckey == old(server).ckey,
        final(server).version == old(server).version,
        final(server).last_player_id == old(server).last_player_id,
        final(server).clients@.len() == old(server).clients@.len(),
        forall|j: int|
            0 <= j < final(server).clients@.len() ==> (#[trigger] final(server).clients@[j]).id
                == old(server).clients@[j].id,
        final(server).rooms@.len() >= old(server).rooms@.len(),
        spec_profile_same(old(server).clients@, final(server).clients@),
        forall|t: int|
            spec_find_id(old(server).clients@, client_id) == Some(t) && client_id != 0 && old(server).last_room_id < u64::MAX ==> {
                let c0 = old(server).clients@[t];
                let display = spec_display_name(
                    name@,
                    c0.lang@,
                    c0.priv_level as int,
                    c0.spec_full_name(),
                );
                &&& final(server).clients@[t].last_room@ == display
                &&& final(server).clients@[t].room is Some
                &&& (!c0.is_closed ==> final(server).clients@[t].queue() == c0.queue()
                    + spec_entry_frames(display, c0.lang@))
                &&& ((exists|r: int|
                    0 <= r < old(server).rooms@.len() && spec_room_match(
                        #[trigger] old(server).rooms@[r],
                        name@,
                        c0.lang@,
                    )) ==> exists|r: int|
                    0 <= r < old(server).rooms@.len() && spec_room_match(
                        #[trigger] old(server).rooms@[r],
                        name@,
                        c0.lang@,
                    ) && final(server).clients@[t].room == Some(old(server).rooms@[r].id))
                &&& (!(exists|r: int|
                    0 <= r < old(server).rooms@.len() && spec_room_match(
                        #[trigger] old(server).rooms@[r],
                        name@,
                        c0.lang@,
                    )) && name@.len() != 0 ==> final(server).clients@[t].room == Some(
                    (old(server).last_room_id + 1) as u64,
                ) && final(server).rooms@.len() == old(server).rooms@.len() + 1)
            },
{
    if server.last_room_id >= u64::MAX {
        return ;
    }
    let ci = match find_client(&server.clients, client_id) {
        Some(i) => i,
        None => {
            return ;
        },
    };
    let lang = server.clients[ci].lang.clone();
    proof {
        assert(server.clients@[ci as int].wf());
    }
    let ri: usize = match server.get_room(name, lang.as_str()) {
        Some(i) => i,
        None => {
            if name.is_empty() {
                server.get_recommended_room(lang.as_str())
            } else {
                proof {
                    crate::text::lemma_encode_utf8_len(name@);
                }
                let room = Room::new(name.to_owned(), lang.clone());
                server.add_room(room);
                server.rooms.len() - 1
            }
        },
    };
    let rid = server.rooms[ri].id;
    let ghost rs0 = server.rooms@;
    let ghost srv0 = *server;
    proof {
        assert(server.wf());
    }
    let full = server.clients[ci].full_name();
    proof {
        crate::session::lemma_full_name_len(&server.clients@[ci as int]);
        reveal_strlit("*");
        assert("*"@ =~= seq!['*']);
    }
    let priv_level = server.clients[ci].priv_level;
    let display = derive_display_name(name, lang.as_str(), priv_level, full.as_str());
    let standard = starts_with_str(display.as_str(), "vanilla") || starts_with_str(
        display.as_str(),
        "survivor",
    ) || starts_with_str(display.as_str(), "racing") || starts_with_str(display.as_str(), "music")
        || starts_with_str(display.as_str(), "bootcamp") || starts_with_str(
        display.as_str(),
        "defilante",
    ) || starts_with_str(display.as_str(), "village") || crate::text::is_numeric_name(
        display.as_str(),
    );
    let starts_star = starts_with_str(display.as_str(), "*");
    if starts_star {
        let dl = display.as_str().unicode_len();
        let stripped = display.as_str().substring_char(1, dl);
        proof {
            assert(stripped@ =~= display@.skip(1));
            assert(display@.take(1) + display@.skip(1) =~= display@);
            crate::text::lemma_encode_utf8_concat(display@.take(1), display@.skip(1));
            reveal_strlit("int");
            crate::text::lemma_encode_utf8_len("int"@);
        }
        server.rooms[ri].name = stripped.to_owned();
        server.rooms[ri].lang = String::from_str("int");
        proof {
            assert forall|r: int| 0 <= r < server.rooms@.len() implies ((#[trigger] server.rooms@[
                r
            ]).wf() && server.rooms@[r].id == rs0[r].id) by {
                if r != ri {
                    assert(server.rooms@[r] == rs0[r]);
                } else {
                    assert(rs0[r].wf());
                }
            }
            assert(srv0.wf());
            assert(server.wf());
        }
    }
    let lang_final: &str = if starts_star {
        "int"
    } else {
        lang.as_str()
    };
    proof {
        reveal_strlit("int");
        crate::text::lemma_encode_utf8_len("int"@);
    }
    let payload = ByteArray::new().write_bool(standard).write_utf(display.as_str()).write_utf(
        lang_final,
    );
    proof {
        if starts_star {
            assert(payload@ =~= crate::bytearray::bool_byte(spec_standard_room(display@))
                + crate::bytearray::utf_wire(display@) + crate::bytearray::utf_wire("int"@));
        } else {
            assert(payload@ =~= crate::bytearray::bool_byte(spec_standard_room(display@))
                + crate::bytearray::utf_wire(display@) + crate::bytearray::utf_wire(lang@));
        }
    }
    send_to_conn_of_client(server, ci, crate::tokens::ENTER_ROOM, payload);
    send_to_conn_of_client(server, ci, crate::tokens::ROOM_SERVER, ByteArray::new().write_i8(0));
    let kind: i8 = if crate::text::contains_str(display.as_str(), "music") {
        11
    } else {
        4
    };
    send_to_conn_of_client(server, ci, crate::tokens::ROOM_TYPE, ByteArray::new().write_i8(kind));
    let ghost cs4 = server.clients@;
    server.clients[ci].last_room = display;
    server.clients[ci].room = Some(rid);
    proof {
        assert forall|j: int|
            0 <= j < server.clients@.len() implies (server.clients@[j] == (#[trigger] cs4[j]) || (
        server.clients@[j].wf() && server.clients@[j].id == cs4[j].id && server.clients@[j].conn
            == cs4[j].conn && server.clients@[j].name == cs4[j].name && server.clients@[
            j
        ].is_guest == cs4[j].is_guest && server.clients@[j].priv_level == cs4[
            j
        ].priv_level)) by {}
        lemma_clients_frame(cs4, server.clients@);
        assert(server.clients@[ci as int].id == client_id);
        assert(server.clients@[ci as int].room is Some);
        assert(spec_profile_same(old(server).clients@, server.clients@));
        let t = ci as int;
        if spec_find_id(old(server).clients@, client_id) == Some(t) && client_id != 0 {
            let c0 = old(server).clients@[t];
            if !c0.is_closed {
                assert(server.clients@[t].queue() =~= c0.queue() + spec_entry_frames(
                    display@,
                    c0.lang@,
                ));
            }
        }
    }
}

/// Queues one frame for the session at a known registry index.
fn send_to_conn_of_client(server: &mut Server, ci: usize, tokens: (u8, u8), data: ByteArray)
    requires
        old(server).wf(),
        ci < old(server).clients@.len(),
        data@.len() < 0xffffffff,
    ensures
        final(server).wf(),
        spec_registry_frame(*old(server), *final(server)),
        spec_profile_same(old(server).clients@, final(server).clients@),
        final(server).rooms == old(server).rooms,
        final(server).last_room_id == old(server).last_room_id,
        forall|j: int|
            0 <= j < old(server).clients@.len() && j != ci ==> final(server).clients@[j]
                == #[trigger] old(server).clients@[j],
        crate::room::spec_delivery(
            old(server).clients@[ci as int],
            final(server).clients@[ci as int],
            spec_frame(tokens.0, tokens.1, data@),
        ),
{
    server.clients[ci].send_data(tokens, data);
    proof {
        assert forall|j: int|
            0 <= j < server.clients@.len() implies (server.clients@[j] == (#[trigger] old(server).clients@[j]) || (server.clients@[j].wf() && server.clients@[j].id == old(server).clients@[j].id && server.clients@[j].conn == old(server).clients@[j].conn
            && server.clients@[j].name == old(server).clients@[j].name && server.clients@[
            j
        ].is_guest == old(server).clients@[j].is_guest && server.clients@[j].priv_level == old(server).clients@[j].priv_level)) by {}
        lemma_clients_frame(old(server).clients@, server.clients@);
    }
}

/// Registers a freshly accepted connection's session under a fresh
/// connection handle, which it returns.
pub fn handle_client(server: &mut Server, client: Client) -> (r: u64)
    requires
        old(server).wf(),
        client.wf(),
        client.id == 0,
        old(server).last_conn < u64::MAX,
    ensures
        final(server).wf(),
        r == old(server).last_conn + 1,
        final(server).last_conn == r,
        final(server).clients@ == old(server).clients@.push(
            Client { conn: r, ..client },
        ),
        final(server).clients@.len() == old(server).clients@.len() + 1,
        final(server).rooms == old(server).rooms,
        final(server).ckey == old(server).ckey,
        final(server).version == old(server).version,
        final(server).last_player_id == old(server).last_player_id,
{
    server.last_conn = server.last_conn + 1;
    let mut client = client;
    client.conn = server.last_conn;
    server.clients.push(client);
    server.last_conn
}

} // verus!
