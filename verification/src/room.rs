use vstd::prelude::*;
use vstd::utf8::encode_utf8;

use crate::bytearray::{bool_byte, ByteArray};
use crate::framer::spec_frame;
use crate::session::{find_client, old_data_payload, spec_old_packet, Client};
use crate::utils::OldData;

verus! {

#[derive(Clone, Copy, Debug, PartialEq, Eq, Structural)]
pub enum MapType {
    Custom,
    Editor,
    Perm,
    Totem,
    Tutorial,
    Vanilla,
    Xml,
}

#[derive(Clone, Copy, Debug, PartialEq, Eq, Structural)]
pub enum RoomType {
    Bootcamp,
    Defilante,
    Racing,
    Survivor,
    Vanilla,
}

/// The special categories whose rooms never advance maps on their own.
pub open spec fn frozen_map_type(t: MapType) -> bool {
    t == MapType::Editor || t == MapType::Totem || t == MapType::Tutorial
}

/// No two sessions share a server-assigned id; only sessions that have not
/// logged in yet carry id zero.
pub open spec fn unique_nonzero_ids(cs: Seq<Client>) -> bool {
    forall|i: int, j: int|
        0 <= i < j < cs.len() ==> ((#[trigger] cs[i]).id != (#[trigger] cs[j]).id || cs[i].id == 0)
}

/// A named, language-scoped play area: map lifecycle, round timer, and the
/// ordered member list its broadcasts fan out to.
pub struct Room {
    /// Registry-assigned handle, stable across membership changes.
    pub id: u64,
    pub name: String,
    pub map_name: String,
    pub lang: String,
    pub map_xml: String,
    pub next_map: String,
    pub sync_name: String,
    pub map_code: i32,
    pub map_perma: i8,
    pub round_time: i16,
    pub start_time: u128,
    pub time_change_map: u16,
    pub last_round_code: i8,
    pub sync_code: i32,
    pub can_change_map: bool,
    pub is_new: bool,
    pub is_inverted_map: bool,
    pub is_specific_map: bool,
    /// Ids of the member sessions, in insertion order.
    pub members: Vec<u32>,
    pub map_type: MapType,
    pub room_type: RoomType,
}

/// How one queued frame lands on one session: closed sessions drop it, open
/// ones append it to their outbound queue and step the packet counter.
pub open spec fn spec_delivery(before: Client, after: Client, frame: Seq<u8>) -> bool {
    &&& Client::same_except_io(before, after)
    &&& (!before.is_closed ==> after.queue() == before.queue().push(frame) && after.packet_id == ((
    before.packet_id + 1) % 255) as u8)
    &&& (before.is_closed ==> after.queue() == before.queue() && after.packet_id
        == before.packet_id)
}

impl Room {
    /// Every member id is a real (post-login) id, no id is listed twice, and
    /// the texts that go into packets fit their length prefixes.
    pub open spec fn wf(&self) -> bool {
        &&& self.members@.no_duplicates()
        &&& self.members@.len() <= 32767
        &&& (forall|k: int| 0 <= k < self.members@.len() ==> #[trigger] self.members@[k] >= 1)
        &&& encode_utf8(self.name@).len() <= 60000
        &&& encode_utf8(self.lang@).len() <= 100
        &&& self.last_round_code >= -1
    }

    pub fn new(name: String, lang: String) -> (r: Self)
        requires
            encode_utf8(name@).len() <= 60000,
            encode_utf8(lang@).len() <= 100,
        ensures
            r.wf(),
            r.id == 0,
            r.name == name,
            r.map_name@ == "BitMice"@,
            r.lang == lang,
            r.map_xml@.len() == 0,
            r.next_map@ == "-1"@,
            r.sync_name@.len() == 0,
            r.map_code == -1,
            r.map_perma == 0,
            r.round_time == -1,
            r.start_time == 0,
            r.time_change_map == 0,
            r.last_round_code == -1,
            r.sync_code == -1,
            r.can_change_map,
            r.is_new,
            !r.is_inverted_map,
            !r.is_specific_map,
            r.members@ == Seq::<u32>::empty(),
            r.map_type == MapType::Vanilla,
            r.room_type == RoomType::Vanilla,
    {
        Room {
            id: 0,
            name,
            map_name: String::from_str("BitMice"),
            lang,
            map_xml: String::new(),
            next_map: String::from_str("-1"),
            sync_name: String::new(),
            map_code: -1,
            map_perma: 0,
            round_time: -1,
            start_time: 0,
            time_change_map: 0,
            last_round_code: -1,
            sync_code: -1,
            can_change_map: true,
            is_new: true,
            is_inverted_map: false,
            is_specific_map: false,
            members: Vec::new(),
            map_type: MapType::Vanilla,
            room_type: RoomType::Vanilla,
        }
    }

    /// The member ids, in insertion order.
    pub fn players(&self) -> (r: Vec<u32>)
        ensures
            r@ == self.members@,
    {
        let mut out: Vec<u32> = Vec::new();
        let mut i: usize = 0;
        while i < self.members.len()
            invariant
                i <= self.members@.len(),
                out@ == self.members@.take(i as int),
            decreases self.members@.len() - i,
        {
            out.push(self.members[i]);
            proof {
                assert(out@ =~= self.members@.take(i + 1));
            }
            i = i + 1;
        }
        proof {
            assert(self.members@.take(self.members@.len() as int) =~= self.members@);
        }
        out
    }

    /// How many members currently count as alive.
    pub fn alive(&self, clients: &Vec<Client>) -> (r: i16)
        requires
            self.wf(),
            unique_nonzero_ids(clients@),
        ensures
            r == spec_alive_count(clients@, self.members@),
            0 <= r <= self.members@.len(),
    {
        proof {
            lemma_alive_count_bound(clients@, self.members@);
        }
        let mut count: i16 = 0;
        let mut k: usize = 0;
        while k < self.members.len()
            invariant
                self.wf(),
                unique_nonzero_ids(clients@),
                k <= self.members@.len(),
                count == spec_alive_count(clients@, self.members@.take(k as int)),
                0 <= count <= k,
            decreases self.members@.len() - k,
        {
            let ghost pre = self.members@.take(k as int);
            proof {
                assert(self.members@.take(k + 1) =~= pre.push(self.members@[k as int]));
                assert(pre.push(self.members@[k as int]).drop_last() =~= pre);
            }
            let m = self.members[k];
            match find_client(clients, m) {
                Some(i) => {
                    if !clients[i].is_dead {
                        count = count + 1;
                    } else {
                        proof {
                            lemma_unique_alive(clients@, m, i as int);
                        }
                    }
                },
                None => {
                    proof {
                        assert(!spec_member_alive(clients@, m));
                    }
                },
            }
            k = k + 1;
        }
        proof {
            assert(self.members@.take(self.members@.len() as int) =~= self.members@);
        }
        count
    }

    /// Queues one frame for every member; a closed member drops it.
    pub fn send_data(&self, clients: &mut Vec<Client>, tokens: (u8, u8), data: ByteArray)
        requires
            self.wf(),
            unique_nonzero_ids(old(clients)@),
            data@.len() < 0xffffffff,
        ensures
            final(clients)@.len() == old(clients)@.len(),
            unique_nonzero_ids(final(clients)@),
            forall|j: int|
                0 <= j < old(clients)@.len() ==> (if self.members@.contains(
                    (#[trigger] old(clients)@[j]).id,
                ) {
                    spec_delivery(
                        old(clients)@[j],
                        final(clients)@[j],
                        spec_frame(tokens.0, tokens.1, data@),
                    )
                } else {
                    final(clients)@[j] == old(clients)@[j]
                }),
    {
        broadcast_frame(&self.members, None, clients, tokens, &data);
    }

    /// Queues one frame for every member but the one with the given id.
    pub fn send_data_except(
        &self,
        client_id: u32,
        clients: &mut Vec<Client>,
        tokens: (u8, u8),
        data: ByteArray,
    )
        requires
            self.wf(),
            unique_nonzero_ids(old(clients)@),
            data@.len() < 0xffffffff,
        ensures
            final(clients)@.len() == old(clients)@.len(),
            unique_nonzero_ids(final(clients)@),
            forall|j: int|
                0 <= j < old(clients)@.len() ==> (if self.members@.contains(
                    (#[trigger] old(clients)@[j]).id,
                ) && old(clients)@[j].id != client_id {
                    spec_delivery(
                        old(clients)@[j],
                        final(clients)@[j],
                        spec_frame(tokens.0, tokens.1, data@),
                    )
                } else {
                    final(clients)@[j] == old(clients)@[j]
                }),
    {
        broadcast_frame(&self.members, Some(client_id), clients, tokens, &data);
    }

    /// Queues one legacy-format message for every member.
    pub fn send_old_data(&self, clients: &mut Vec<Client>, tokens: (u8, u8), data: Vec<OldData>)
        requires
            self.wf(),
            unique_nonzero_ids(old(clients)@),
            3 + crate::session::spec_old_fields(data@).len() <= 0xffff,
        ensures
            final(clients)@.len() == old(clients)@.len(),
            unique_nonzero_ids(final(clients)@),
            forall|j: int|
                0 <= j < old(clients)@.len() ==> (if self.members@.contains(
                    (#[trigger] old(clients)@[j]).id,
                ) {
                    spec_delivery(
                        old(clients)@[j],
                        final(clients)@[j],
                        spec_frame(1, 1, spec_old_packet(tokens, data@)),
                    )
                } else {
                    final(clients)@[j] == old(clients)@[j]
                }),
    {
        let p = old_data_payload(tokens, &data);
        let packet = ByteArray::new().write_u16(p.len() as u16).write_bytes(p.as_bytes());
        proof {
            assert(packet@ =~= spec_old_packet(tokens, data@));
        }
        broadcast_frame(&self.members, None, clients, (1, 1), &packet);
    }

    /// Tells every member whether the round timer is running.
    pub fn start_map(&self, clients: &mut Vec<Client>, start: bool)
        requires
            self.wf(),
            unique_nonzero_ids(old(clients)@),
        ensures
            final(clients)@.len() == old(clients)@.len(),
            unique_nonzero_ids(final(clients)@),
            forall|j: int|
                0 <= j < old(clients)@.len() ==> (if self.members@.contains(
                    (#[trigger] old(clients)@[j]).id,
                ) {
                    spec_delivery(
                        old(clients)@[j],
                        final(clients)@[j],
                        spec_frame(
                            crate::tokens::MAP_START_TIMER.0,
                            crate::tokens::MAP_START_TIMER.1,
                            bool_byte(start),
                        ),
                    )
                } else {
                    final(clients)@[j] == old(clients)@[j]
                }),
    {
        let data = ByteArray::new().write_bool(start);
        proof {
            assert(data@ =~= bool_byte(start));
        }
        broadcast_frame(&self.members, None, clients, crate::tokens::MAP_START_TIMER, &data);
    }
}

/// Display name of the stock map pool's sample entry.
pub open spec fn spec_map_info_name() -> Seq<char> {
    "Euzinho"@
}

/// Markup of the stock map pool's sample entry.
pub open spec fn spec_map_info_xml() -> Seq<char> {
    r#"<C><P F="7" /><Z><S><S Y="275" T="10" P="0,0,0.3,0,0,0,0,0" L="120" X="60" H="300" /><S Y="315" T="11" P="1,0,0.05,0.1,0,0,0,0" c="1" L="20" X="210" H="275" /><S Y="275" T="10" P="0,0,0.3,0,0,0,0,0" L="120" H="300" X="740" /><S Y="475" T="8" P="0,0,0.2,0.2,0,0,0,0" L="400" X="400" H="40" /><S Y="315" T="11" P="1,0,0.05,0.1,0,0,0,0" H="275" L="20" X="340" c="1" /><S Y="315" T="11" P="1,0,0.05,0.1,0,0,0,0" c="1" L="20" X="470" H="275" /><S Y="315" T="11" P="1,0,0.05,0.1,0,0,0,0" H="275" L="20" X="590" c="1" /></S><D><T Y="127" X="56" /><F Y="123" X="740" /></D><O /></Z></C>"#@
}

/// Permanence field of the stock map pool's sample entry.
pub open spec fn spec_map_info_perma() -> Seq<char> {
    "22"@
}

/// Looks a custom map up by id: display name, markup, permanence byte.
pub fn get_map_info(map_code: i32) -> (r: Option<Vec<&'static str>>)
    ensures
        r is Some,
        r.unwrap()@.len() == 3,
        r.unwrap()@[0]@ == spec_map_info_name(),
        r.unwrap()@[1]@ == spec_map_info_xml(),
        r.unwrap()@[2]@ == spec_map_info_perma(),
        crate::text::spec_parse_i32(spec_map_info_perma()) == Some(22int),
{
    let _ = map_code;
    proof {
        lemma_perma_literal();
    }
    let mut v: Vec<&'static str> = Vec::new();
    v.push("Euzinho");
    v.push(
        r#"<C><P F="7" /><Z><S><S Y="275" T="10" P="0,0,0.3,0,0,0,0,0" L="120" X="60" H="300" /><S Y="315" T="11" P="1,0,0.05,0.1,0,0,0,0" c="1" L="20" X="210" H="275" /><S Y="275" T="10" P="0,0,0.3,0,0,0,0,0" L="120" H="300" X="740" /><S Y="475" T="8" P="0,0,0.2,0.2,0,0,0,0" L="400" X="400" H="40" /><S Y="315" T="11" P="1,0,0.05,0.1,0,0,0,0" H="275" L="20" X="340" c="1" /><S Y="315" T="11" P="1,0,0.05,0.1,0,0,0,0" c="1" L="20" X="470" H="275" /><S Y="315" T="11" P="1,0,0.05,0.1,0,0,0,0" H="275" L="20" X="590" c="1" /></S><D><T Y="127" X="56" /><F Y="123" X="740" /></D><O /></Z></C>"#,
    );
    v.push("22");
    Some(v)
}

proof fn lemma_perma_literal()
    ensures
        crate::text::spec_parse_i32(spec_map_info_perma()) == Some(22int),
{
    reveal_strlit("22");
    let d = "22"@;
    assert(d =~= seq!['2', '2']);
    assert(d.drop_last() =~= seq!['2']);
    assert(seq!['2'].drop_last() =~= Seq::<char>::empty());
    assert(crate::text::spec_dec_value(Seq::<char>::empty()) == 0);
    assert(crate::text::spec_dec_value(seq!['2']) == 2);
    assert(crate::text::spec_dec_value(d) == 22);
    assert(crate::text::all_dec_digits(d));
}

/// Frame for `select_map`: everything but the map fields is untouched.
pub open spec fn same_except_map(a: Room, b: Room) -> bool {
    &&& a.id == b.id
    &&& a.name == b.name
    &&& a.lang == b.lang
    &&& a.sync_name == b.sync_name
    &&& a.round_time == b.round_time
    &&& a.start_time == b.start_time
    &&& a.time_change_map == b.time_change_map
    &&& a.last_round_code == b.last_round_code
    &&& a.sync_code == b.sync_code
    &&& a.can_change_map == b.can_change_map
    &&& a.is_new == b.is_new
    &&& a.is_specific_map == b.is_specific_map
    &&& a.members == b.members
    &&& a.room_type == b.room_type
}

/// The map fields keep their old values.
pub open spec fn map_fields_unchanged(o: Room, n: Room) -> bool {
    &&& n.map_name == o.map_name
    &&& n.map_xml == o.map_xml
    &&& n.map_perma == o.map_perma
    &&& n.map_type == o.map_type
    &&& n.is_inverted_map == o.is_inverted_map
}

/// What `select_map` does to the map fields, given the pool pick for the
/// random case: the queued selector decides between a pool map, a specific
/// custom map, a permanent map, raw markup, or no change.
pub open spec fn spec_select_map_fields(o: Room, n: Room, vcode: i32, vxml: Seq<char>) -> bool {
    if o.next_map@ == "-1"@ {
        &&& n.next_map == o.next_map
        &&& if o.map_type == MapType::Vanilla {
            &&& n.map_code == vcode
            &&& n.map_name@ == "BitMice"@
            &&& n.map_xml@ == vxml
            &&& n.map_perma == 22
            &&& !n.is_inverted_map
            &&& n.map_type == o.map_type
        } else {
            &&& n.map_code == -1
            &&& n.map_name@ == "Invalid"@
            &&& n.map_xml@ == "<C><P /><Z><S /><D /><O /></Z></C>"@
            &&& n.map_perma == -1
            &&& !n.is_inverted_map
            &&& n.map_type == o.map_type
        }
    } else {
        &&& n.next_map@ == "-1"@
        &&& if crate::text::spec_parse_i32(o.next_map@) is Some {
            &&& n.map_code == crate::text::spec_parse_i32(o.next_map@).unwrap()
            &&& map_fields_unchanged(o, n)
        } else if crate::text::spec_starts_with(o.next_map@, seq!['@']) {
            match crate::text::spec_parse_i32(o.next_map@.skip(1)) {
                Some(code) => {
                    &&& n.map_code == code
                    &&& n.map_name@ == spec_map_info_name()
                    &&& n.map_xml@ == spec_map_info_xml()
                    &&& n.map_perma == 22
                    &&& n.map_type == MapType::Custom
                    &&& !n.is_inverted_map
                },
                None => n.map_code == -1 && map_fields_unchanged(o, n),
            }
        } else if crate::text::spec_starts_with(o.next_map@, seq!['#']) {
            match crate::text::spec_parse_i32(o.next_map@.skip(1)) {
                Some(p) => if -128 <= p <= 127 {
                    &&& n.map_code == -1
                    &&& n.map_perma == p
                    &&& n.map_type == MapType::Perm
                    &&& n.map_name == o.map_name
                    &&& n.map_xml == o.map_xml
                    &&& n.is_inverted_map == o.is_inverted_map
                } else {
                    n.map_code == -1 && map_fields_unchanged(o, n)
                },
                None => n.map_code == -1 && map_fields_unchanged(o, n),
            }
        } else if crate::text::spec_starts_with(o.next_map@, seq!['<']) {
            &&& n.map_code == 0
            &&& n.map_name@ == "#Module"@
            &&& n.map_xml@ == o.next_map@
            &&& n.map_perma == 22
            &&& n.map_type == MapType::Xml
            &&& !n.is_inverted_map
        } else {
            n.map_code == -1 && map_fields_unchanged(o, n)
        }
    }
}

impl Room {
    /// Resolves the queued next-map selector into the current map fields;
    /// `vanilla_code` and `vanilla_xml` are the pool pick used when the
    /// selector asks for a random stock map.
    pub fn select_map(&mut self, vanilla_code: i32, vanilla_xml: String)
        ensures
            same_except_map(*old(self), *final(self)),
            spec_select_map_fields(*old(self), *final(self), vanilla_code, vanilla_xml@),
    {
        proof {
            reveal_strlit("-1");
            reveal_strlit("@");
            reveal_strlit("#");
            reveal_strlit("<");
            assert("@"@ =~= seq!['@']);
            assert("#"@ =~= seq!['#']);
            assert("<"@ =~= seq!['<']);
        }
        if crate::text::str_eq(self.next_map.as_str(), "-1") {
            if self.map_type == MapType::Vanilla {
                self.map_code = vanilla_code;
                self.map_name = String::from_str("BitMice");
                self.map_xml = vanilla_xml;
                self.map_perma = 22;
                self.is_inverted_map = false;
            } else {
                self.map_code = -1;
                self.map_name = String::from_str("Invalid");
                self.map_xml = String::from_str("<C><P /><Z><S /><D /><O /></Z></C>");
                self.map_perma = -1;
                self.is_inverted_map = false;
            }
            return ;
        }
        let next_map = self.next_map.clone();
        self.next_map = String::from_str("-1");
        self.map_code = -1;
        let l = next_map.as_str().unicode_len();
        if let Some(code) = crate::text::parse_i32(next_map.as_str()) {
            self.map_code = code;
        } else if crate::text::starts_with_str(next_map.as_str(), "@") {
            let rest = next_map.as_str().substring_char(1, l);
            proof {
                assert(rest@ =~= next_map@.skip(1));
            }
            if let Some(code) = crate::text::parse_i32(rest) {
                match get_map_info(code) {
                    Some(info) => {
                        self.map_code = code;
                        self.map_name = String::from_str(info[0]);
                        self.map_xml = String::from_str(info[1]);
                        match crate::text::parse_i32(info[2]) {
                            Some(p) => {
                                if -128 <= p && p <= 127 {
                                    self.map_perma = p as i8;
                                } else {
                                    proof {
                                        assert(false);
                                    }
                                }
                            },
                            None => {
                                proof {
                                    assert(false);
                                }
                            },
                        }
                        self.map_type = MapType::Custom;
                        self.is_inverted_map = false;
                    },
                    None => {
                        proof {
                            assert(false);
                        }
                    },
                }
            }
        } else if crate::text::starts_with_str(next_map.as_str(), "#") {
            let rest = next_map.as_str().substring_char(1, l);
            proof {
                assert(rest@ =~= next_map@.skip(1));
            }
            if let Some(p) = crate::text::parse_i32(rest) {
                if -128 <= p && p <= 127 {
                    self.map_perma = p as i8;
                    self.map_type = MapType::Perm;
                }
            }
        } else if crate::text::starts_with_str(next_map.as_str(), "<") {
            self.map_code = 0;
            self.map_name = String::from_str("#Module");
            self.map_xml = next_map;
            self.map_perma = 22;
            self.map_type = MapType::Xml;
            self.is_inverted_map = false;
        }
    }
}

/// Frame for `get_sync_code`: everything but the sync fields is untouched.
pub open spec fn same_except_sync(a: Room, b: Room) -> bool {
    &&& a.id == b.id
    &&& a.name == b.name
    &&& a.map_name == b.map_name
    &&& a.lang == b.lang
    &&& a.map_xml == b.map_xml
    &&& a.next_map == b.next_map
    &&& a.map_code == b.map_code
    &&& a.map_perma == b.map_perma
    &&& a.round_time == b.round_time
    &&& a.start_time == b.start_time
    &&& a.time_change_map == b.time_change_map
    &&& a.last_round_code == b.last_round_code
    &&& a.can_change_map == b.can_change_map
    &&& a.is_new == b.is_new
    &&& a.is_inverted_map == b.is_inverted_map
    &&& a.is_specific_map == b.is_specific_map
    &&& a.members == b.members
    &&& a.map_type == b.map_type
    &&& a.room_type == b.room_type
}

/// The sync target picked for member id `m`: if some session carries that
/// id, the room now points at it; a stale id leaves the sync fields alone.
pub open spec fn spec_sync_pick(o: Room, n: Room, cs: Seq<Client>, m: u32) -> bool {
    if exists|i: int| 0 <= i < cs.len() && (#[trigger] cs[i]).id == m {
        let i = choose|i: int| 0 <= i < cs.len() && (#[trigger] cs[i]).id == m;
        n.sync_code == m as i32 && n.sync_name@ == cs[i].spec_full_name()
    } else {
        n.sync_code == o.sync_code && n.sync_name == o.sync_name
    }
}

impl Room {
    /// Picks the session other members synchronise against: a random member
    /// when the room has members, else a cleared target.
    pub fn get_sync_code(&mut self, clients: &Vec<Client>) -> (r: i32)
        requires
            old(self).wf(),
            unique_nonzero_ids(clients@),
        ensures
            final(self).wf(),
            same_except_sync(*old(self), *final(self)),
            r == final(self).sync_code,
            old(self).members@.len() == 0 ==> (if old(self).sync_code == -1 {
                final(self).sync_code == 0 && final(self).sync_name@.len() == 0
            } else {
                final(self).sync_code == old(self).sync_code && final(self).sync_name == old(self).sync_name
            }),
            old(self).members@.len() > 0 ==> (exists|k: int|
                0 <= k < old(self).members@.len() && spec_sync_pick(
                    *old(self),
                    *final(self),
                    clients@,
                    #[trigger] old(self).members@[k],
                )),
    {
        if self.members.len() == 0 {
            if self.sync_code == -1 {
                self.sync_code = 0;
                self.sync_name = String::new();
            }
            return self.sync_code;
        }
        let k = crate::utils::random_index(self.members.len());
        let m = self.members[k];
        match find_client(clients, m) {
            Some(i) => {
                self.sync_code = #[verifier::truncate] (m as i32);
                self.sync_name = clients[i].full_name();
                proof {
                    let wi = choose|w: int| 0 <= w < clients@.len() && (#[trigger] clients@[w]).id == m;
                    assert(clients@[wi].id == m && clients@[i as int].id == m);
                    assert(wi == i as int) by {
                        if wi != i as int {
                            if wi < i as int {
                            } else {
                                assert(clients@[i as int].id != clients@[wi].id || clients@[
                                    i as int
                                ].id == 0);
                            }
                        }
                    }
                    assert(spec_sync_pick(*old(self), *final(self), clients@, m));
                }
            },
            None => {
                proof {
                    assert(spec_sync_pick(*old(self), *final(self), clients@, m));
                }
            },
        }
        self.sync_code
    }
}

/// Whether this tick must trigger a map change: a brand-new room, no member
/// alive, or a permitted map change with the timer run out.
pub open spec fn spec_trigger(is_new: bool, alive: int, can_change: bool, time: int) -> bool {
    is_new || alive <= 0 || (can_change && time <= 0)
}

/// The room-name prefixes of the frozen categories.
pub open spec fn spec_frozen_name(name: Seq<char>) -> bool {
    ||| crate::text::spec_starts_with(name, "\x03[Editeur] "@)
    ||| crate::text::spec_starts_with(name, "\x03[Tutorial] "@)
    ||| crate::text::spec_starts_with(name, "\x03[Totem] "@)
}

/// Frame for `apply_change_map`: fields neither branch writes.
pub open spec fn same_except_change(a: Room, b: Room) -> bool {
    &&& a.id == b.id
    &&& a.name == b.name
    &&& a.lang == b.lang
    &&& a.time_change_map == b.time_change_map
    &&& a.is_new == b.is_new
    &&& a.members == b.members
}

/// What a map change does to the room state before the members are
/// respawned: the sync target and round bookkeeping reset, and either a
/// frozen category pins its fixed map, or the queued selector is resolved
/// and the category timer applied.
pub open spec fn spec_change_rel(o: Room, n: Room, vcode: i32, vxml: Seq<char>, now: u128) -> bool {
    &&& same_except_change(o, n)
    &&& n.sync_name@.len() == 0
    &&& n.last_round_code == ((o.last_round_code + 1) % 127) as i8
    &&& n.sync_code == -1
    &&& n.can_change_map
    &&& n.start_time == now
    &&& if crate::text::spec_starts_with(o.name@, "\x03[Editeur] "@) {
        &&& n.map_type == MapType::Editor
        &&& n.round_time == 0
        &&& n.map_code == o.map_code
        &&& n.map_name == o.map_name
        &&& n.map_xml == o.map_xml
        &&& n.map_perma == o.map_perma
        &&& n.is_inverted_map == o.is_inverted_map
        &&& n.next_map == o.next_map
        &&& n.is_specific_map == o.is_specific_map
        &&& n.room_type == o.room_type
    } else if crate::text::spec_starts_with(o.name@, "\x03[Tutorial] "@) {
        &&& n.map_code == 900
        &&& n.is_specific_map
        &&& n.map_type == MapType::Tutorial
        &&& n.round_time == 0
        &&& n.map_name == o.map_name
        &&& n.map_xml == o.map_xml
        &&& n.map_perma == o.map_perma
        &&& n.is_inverted_map == o.is_inverted_map
        &&& n.next_map == o.next_map
        &&& n.room_type == o.room_type
    } else if crate::text::spec_starts_with(o.name@, "\x03[Totem] "@) {
        &&& n.map_code == 444
        &&& n.is_specific_map
        &&& n.map_type == MapType::Totem
        &&& n.round_time == 0
        &&& n.map_name == o.map_name
        &&& n.map_xml == o.map_xml
        &&& n.map_perma == o.map_perma
        &&& n.is_inverted_map == o.is_inverted_map
        &&& n.next_map == o.next_map
        &&& n.room_type == o.room_type
    } else {
        &&& spec_select_map_fields(o, n, vcode, vxml)
        &&& n.is_specific_map == o.is_specific_map
        &&& if crate::text::spec_starts_with(o.name@, "bootcamp"@) {
            n.room_type == RoomType::Bootcamp && n.round_time == 360
        } else if crate::text::spec_starts_with(o.name@, "defilante"@) {
            n.room_type == RoomType::Defilante && n.round_time == 120
        } else if crate::text::spec_starts_with(o.name@, "racing"@) {
            n.room_type == RoomType::Racing && n.round_time == 63
        } else if crate::text::spec_starts_with(o.name@, "survivor"@) {
            n.room_type == RoomType::Survivor && n.round_time == 120
        } else {
            n.room_type == o.room_type && n.round_time == 120
        }
    }
}

impl Room {
    /// The room-state half of a map change: resets the round bookkeeping and
    /// resolves the next map; the caller then respawns the members and
    /// withdraws the map-change permission.
    pub fn apply_change_map(&mut self, vanilla_code: i32, vanilla_xml: String, now: u128)
        requires
            old(self).wf(),
        ensures
            final(self).wf(),
            spec_change_rel(*old(self), *final(self), vanilla_code, vanilla_xml@, now),
            spec_frozen_name(old(self).name@) ==> frozen_map_type(final(self).map_type),
    {
        self.sync_name = String::new();
        self.round_time = 120;
        self.last_round_code = (((self.last_round_code as i16) + 1) % 127) as i8;
        self.sync_code = -1;
        self.can_change_map = true;
        if crate::text::starts_with_str(self.name.as_str(), "\x03[Editeur] ") {
            self.map_type = MapType::Editor;
            self.round_time = 0;
        } else if crate::text::starts_with_str(self.name.as_str(), "\x03[Tutorial] ") {
            self.map_code = 900;
            self.is_specific_map = true;
            self.map_type = MapType::Tutorial;
            self.round_time = 0;
        } else if crate::text::starts_with_str(self.name.as_str(), "\x03[Totem] ") {
            self.map_code = 444;
            self.is_specific_map = true;
            self.map_type = MapType::Totem;
            self.round_time = 0;
        } else {
            self.select_map(vanilla_code, vanilla_xml);
            if crate::text::starts_with_str(self.name.as_str(), "bootcamp") {
                self.room_type = RoomType::Bootcamp;
                self.round_time = 360;
            } else if crate::text::starts_with_str(self.name.as_str(), "defilante") {
                self.room_type = RoomType::Defilante;
            } else if crate::text::starts_with_str(self.name.as_str(), "racing") {
                self.room_type = RoomType::Racing;
                self.round_time = 63;
            } else if crate::text::starts_with_str(self.name.as_str(), "survivor") {
                self.room_type = RoomType::Survivor;
            }
        }
        self.start_time = now;
    }
}

/// Position of the first occurrence of an id in a member list.
fn find_member(members: &Vec<u32>, id: u32) -> (r: Option<usize>)
    ensures
        match r {
            Some(i) => i < members@.len() && members@[i as int] == id && (forall|t: int|
                0 <= t < i ==> #[trigger] members@[t] != id),
            None => forall|t: int| 0 <= t < members@.len() ==> #[trigger] members@[t] != id,
        },
{
    let mut k: usize = 0;
    while k < members.len()
        invariant
            k <= members@.len(),
            forall|t: int| 0 <= t < k ==> #[trigger] members@[t] != id,
        decreases members@.len() - k,
    {
        if members[k] == id {
            return Some(k);
        }
        k = k + 1;
    }
    None
}

/// Frame for the cheese grab: everything but the map-change permission is
/// untouched.
pub open spec fn same_except_gate(a: Room, b: Room) -> bool {
    &&& a.id == b.id
    &&& a.name == b.name
    &&& a.map_name == b.map_name
    &&& a.lang == b.lang
    &&& a.map_xml == b.map_xml
    &&& a.next_map == b.next_map
    &&& a.sync_name == b.sync_name
    &&& a.map_code == b.map_code
    &&& a.map_perma == b.map_perma
    &&& a.round_time == b.round_time
    &&& a.start_time == b.start_time
    &&& a.time_change_map == b.time_change_map
    &&& a.last_round_code == b.last_round_code
    &&& a.sync_code == b.sync_code
    &&& a.is_new == b.is_new
    &&& a.is_inverted_map == b.is_inverted_map
    &&& a.is_specific_map == b.is_specific_map
    &&& a.members == b.members
    &&& a.map_type == b.map_type
    &&& a.room_type == b.room_type
}

/// Frame for membership changes: everything but the member list is
/// untouched.
pub open spec fn same_except_members(a: Room, b: Room) -> bool {
    &&& a.id == b.id
    &&& a.name == b.name
    &&& a.map_name == b.map_name
    &&& a.lang == b.lang
    &&& a.map_xml == b.map_xml
    &&& a.next_map == b.next_map
    &&& a.sync_name == b.sync_name
    &&& a.map_code == b.map_code
    &&& a.map_perma == b.map_perma
    &&& a.round_time == b.round_time
    &&& a.start_time == b.start_time
    &&& a.time_change_map == b.time_change_map
    &&& a.last_round_code == b.last_round_code
    &&& a.sync_code == b.sync_code
    &&& a.can_change_map == b.can_change_map
    &&& a.is_new == b.is_new
    &&& a.is_inverted_map == b.is_inverted_map
    &&& a.is_specific_map == b.is_specific_map
    &&& a.map_type == b.map_type
    &&& a.room_type == b.room_type
}

/// The wire image of the legacy disconnect notice naming a leaving player.
pub open spec fn spec_disconnect_packet(id: u32) -> Seq<u8> {
    crate::bytearray::u16_be(7) + seq![
        1u8,
        crate::tokens::OLD_PLAYER_DISCONNECT.0,
        crate::tokens::OLD_PLAYER_DISCONNECT.1,
    ] + crate::bytearray::u32_be(id)
}

impl Room {
    /// Adds a session to the member list; a full room or an id already
    /// listed is left as it is.
    pub fn add_member(&mut self, client_id: u32)
        requires
            old(self).wf(),
            client_id >= 1,
        ensures
            final(self).wf(),
            same_except_members(*old(self), *final(self)),
            old(self).members@.contains(client_id) || old(self).members@.len() >= 32767
                ==> final(self).members == old(self).members,
            (!old(self).members@.contains(client_id) && old(self).members@.len() < 32767) ==> (
            final(self).members@ == old(self).members@.push(client_id)),
    {
        if self.members.len() >= 32767 {
            return ;
        }
        if find_member(&self.members, client_id).is_some() {
            return ;
        }
        self.members.push(client_id);
    }

    /// Takes a leaving session out of the room: clears its round state,
    /// broadcasts the disconnect notice, and drops it from the member list.
    pub fn remove_client(&mut self, clients: &mut Vec<Client>, client_id: u32)
        requires
            old(self).wf(),
            unique_nonzero_ids(old(clients)@),
            forall|j: int| 0 <= j < old(clients)@.len() ==> (#[trigger] old(clients)@[j]).wf(),
        ensures
            final(self).wf(),
            same_except_members(*old(self), *final(self)),
            unique_nonzero_ids(final(clients)@),
            final(clients)@.len() == old(clients)@.len(),
            forall|j: int|
                0 <= j < final(clients)@.len() ==> ((#[trigger] final(clients)@[j]).wf()
                    && final(clients)@[j].id == old(clients)@[j].id && final(clients)@[j].conn
                    == old(clients)@[j].conn),
            !final(self).members@.contains(client_id),
            forall|m: u32|
                m != client_id ==> (final(self).members@.contains(m) <==> old(self).members@.contains(m)),
            !old(self).members@.contains(client_id) ==> (*final(self) == *old(self) && final(clients)@ == old(clients)@),
            old(self).members@.contains(client_id) ==> (forall|j: int|
                0 <= j < old(clients)@.len() ==> {
                    let c0 = #[trigger] old(clients)@[j];
                    if c0.id == client_id {
                        spec_delivery(
                            (Client {
                                has_cheese: false,
                                is_dead: true,
                                is_jumping: false,
                                is_moving_right: false,
                                is_moving_left: false,
                                is_shaman: false,
                                score: 0,
                                ..c0
                            }),
                            final(clients)@[j],
                            spec_frame(1, 1, spec_disconnect_packet(client_id)),
                        )
                    } else if old(self).members@.contains(c0.id) {
                        spec_delivery(
                            c0,
                            final(clients)@[j],
                            spec_frame(1, 1, spec_disconnect_packet(client_id)),
                        )
                    } else {
                        final(clients)@[j] == c0
                    }
                }),
    {
        let found = match find_member(&self.members, client_id) {
            Some(p) => p,
            None => {
                return ;
            },
        };
        let found_client = find_client(clients, client_id);
        let ghost ci_found = found_client;
        match found_client {
            Some(ci) => {
                let c = &mut clients[ci];
                c.reset_player();
                c.is_dead = true;
                c.score = 0;
                proof {
                    assert(clients@[ci as int] == (Client {
                        has_cheese: false,
                        is_dead: true,
                        is_jumping: false,
                        is_moving_right: false,
                        is_moving_left: false,
                        is_shaman: false,
                        score: 0,
                        ..old(clients)@[ci as int]
                    }));
                }
            },
            None => {},
        }
        let ghost cs1 = clients@;
        let mut fields: Vec<OldData> = Vec::new();
        fields.push(OldData::Integer(#[verifier::truncate] (client_id as i32)));
        proof {
            reveal_with_fuel(crate::session::spec_old_fields, 3);
            assert(fields@.drop_last() =~= Seq::<OldData>::empty());
            assert(((client_id as i32) as u32) == client_id) by (bit_vector);
            assert(crate::session::spec_old_packet(crate::tokens::OLD_PLAYER_DISCONNECT, fields@)
                =~= spec_disconnect_packet(client_id));
        }
        self.send_old_data(clients, crate::tokens::OLD_PLAYER_DISCONNECT, fields);
        proof {
            assert(old(self).members@.contains(client_id)) by {
                assert(old(self).members@[found as int] == client_id);
            }
            assert(client_id >= 1) by {
                assert(old(self).members@[found as int] >= 1);
            }
            assert forall|j: int| 0 <= j < old(clients)@.len() implies {
                let c0 = #[trigger] old(clients)@[j];
                if c0.id == client_id {
                    spec_delivery(
                        (Client {
                            has_cheese: false,
                            is_dead: true,
                            is_jumping: false,
                            is_moving_right: false,
                            is_moving_left: false,
                            is_shaman: false,
                            score: 0,
                            ..c0
                        }),
                        clients@[j],
                        spec_frame(1, 1, spec_disconnect_packet(client_id)),
                    )
                } else if old(self).members@.contains(c0.id) {
                    spec_delivery(
                        c0,
                        clients@[j],
                        spec_frame(1, 1, spec_disconnect_packet(client_id)),
                    )
                } else {
                    clients@[j] == c0
                }
            } by {
                if old(clients)@[j].id == client_id {
                    if ci_found is Some {
                        let ci = ci_found.unwrap() as int;
                        if j != ci {
                            assert(old(clients)@[j].id != old(clients)@[ci].id || old(clients)@[j].id == 0);
                            assert(false);
                        }
                        assert(cs1[j].id == client_id);
                        assert(self.members@.contains(cs1[j].id));
                    } else {
                        assert(false);
                    }
                } else {
                    assert(cs1[j] == old(clients)@[j]);
                }
            }
        }
        self.members.swap_remove(found);
        proof {
            let oldm = old(self).members@;
            let newm = self.members@;
            assert forall|t: int| 0 <= t < newm.len() implies #[trigger] newm[t] != client_id by {
                if t == found {
                    if found < newm.len() {
                        assert(newm[t] == oldm[oldm.len() - 1]);
                    }
                } else {
                    assert(newm[t] == oldm[t]);
                }
            }
            assert forall|a: int, b: int| 0 <= a < b < newm.len() implies (#[trigger] newm[a]) != (
            #[trigger] newm[b]) by {
                let oa: int = if a == found {
                    oldm.len() - 1
                } else {
                    a
                };
                let ob: int = if b == found {
                    oldm.len() - 1
                } else {
                    b
                };
                assert(newm[a] == oldm[oa]);
                assert(newm[b] == oldm[ob]);
            }
            assert forall|m: u32| m != client_id implies (newm.contains(m) <==> oldm.contains(
                m,
            )) by {
                if oldm.contains(m) {
                    let t = choose|t: int| 0 <= t < oldm.len() && oldm[t] == m;
                    if t == found {
                        assert(newm[found as int] == m || found >= newm.len());
                    } else if t == oldm.len() - 1 {
                        assert(found < newm.len() ==> newm[found as int] == m);
                        assert(oldm[found as int] == client_id);
                    } else {
                        assert(newm[t] == m);
                    }
                }
                if newm.contains(m) {
                    let t = choose|t: int| 0 <= t < newm.len() && newm[t] == m;
                    if t == found {
                        assert(oldm[oldm.len() - 1] == m);
                    } else {
                        assert(oldm[t] == m);
                    }
                }
            }
            assert(newm.no_duplicates());
        }
    }
}

/// Number of automatic map changes a frozen-category room performs over a
/// run of ticks, given which ticks fired the trigger condition: a fired
/// trigger on a still-unfrozen map performs the change and freezes the map
/// category; a fired trigger on a frozen one stops the loop.
pub open spec fn spec_frozen_run(map_frozen: bool, stopped: bool, fired: Seq<bool>) -> nat
    decreases fired.len(),
{
    if fired.len() == 0 {
        0
    } else if stopped {
        0
    } else if fired[0] {
        if map_frozen {
            spec_frozen_run(true, true, fired.skip(1))
        } else {
            1 + spec_frozen_run(true, false, fired.skip(1))
        }
    } else {
        spec_frozen_run(map_frozen, stopped, fired.skip(1))
    }
}

/// Law: a frozen-category room never performs more than one automatic map
/// change, however many ticks elapse and whichever of them fire the trigger;
/// once its map category is frozen it performs none at all.
pub proof fn lemma_frozen_single_change(map_frozen: bool, stopped: bool, fired: Seq<bool>)
    ensures
        spec_frozen_run(map_frozen, stopped, fired) <= 1,
        map_frozen ==> spec_frozen_run(map_frozen, stopped, fired) == 0,
        stopped ==> spec_frozen_run(map_frozen, stopped, fired) == 0,
    decreases fired.len(),
{
    if fired.len() > 0 {
        lemma_frozen_single_change(true, true, fired.skip(1));
        lemma_frozen_single_change(true, false, fired.skip(1));
        lemma_frozen_single_change(map_frozen, stopped, fired.skip(1));
    }
}

/// Law: while a room keeps at least one member alive and map changes stay
/// permitted, the timer falls by exactly one per tick, so after `k` quiet
/// ticks it reads `t0 - k`; for the run to have stayed quiet it must still
/// be positive, and the next tick fires the map-change trigger exactly when
/// it takes the timer to zero or below.
pub proof fn lemma_round_timer(t0: int, k: nat, alive: int)
    requires
        alive >= 1,
        forall|i: nat|
            i < k ==> !spec_trigger(false, alive, true, #[trigger] (t0 - i - 1)),
    ensures
        k >= 1 ==> t0 - k > 0,
        spec_trigger(false, alive, true, t0 - (k + 1)) <==> t0 - (k + 1) <= 0,
{
    if k >= 1 {
        assert(!spec_trigger(false, alive, true, t0 - (k - 1) - 1));
    }
}

/// A member with this id is currently connected and not flagged dead.
pub open spec fn spec_member_alive(cs: Seq<Client>, id: u32) -> bool {
    exists|i: int| 0 <= i < cs.len() && (#[trigger] cs[i]).id == id && !cs[i].is_dead
}

/// Number of members whose session is alive.
pub open spec fn spec_alive_count(cs: Seq<Client>, members: Seq<u32>) -> int
    decreases members.len(),
{
    if members.len() == 0 {
        0
    } else {
        spec_alive_count(cs, members.drop_last()) + (if spec_member_alive(cs, members.last()) {
            1int
        } else {
            0int
        })
    }
}

proof fn lemma_alive_count_bound(cs: Seq<Client>, members: Seq<u32>)
    ensures
        0 <= spec_alive_count(cs, members) <= members.len(),
    decreases members.len(),
{
    if members.len() > 0 {
        lemma_alive_count_bound(cs, members.drop_last());
    }
}

/// With unique ids, if the first session with this id is dead, no session
/// with this id is alive.
proof fn lemma_unique_alive(cs: Seq<Client>, id: u32, i: int)
    requires
        unique_nonzero_ids(cs),
        id >= 1,
        0 <= i < cs.len(),
        cs[i].id == id,
        cs[i].is_dead,
        forall|j: int| 0 <= j < i ==> (#[trigger] cs[j]).id != id,
    ensures
        !spec_member_alive(cs, id),
{
    assert forall|j: int| 0 <= j < cs.len() && (#[trigger] cs[j]).id == id implies cs[j].is_dead by {
        if j != i {
            if j < i {
            } else {
                assert(cs[i].id != cs[j].id || cs[i].id == 0);
            }
        }
    }
}

/// Fans one frame out to the members, skipping at most one excepted id.
fn broadcast_frame(
    members: &Vec<u32>,
    except: Option<u32>,
    clients: &mut Vec<Client>,
    tokens: (u8, u8),
    data: &ByteArray,
)
    requires
        members@.no_duplicates(),
        forall|k: int| 0 <= k < members@.len() ==> #[trigger] members@[k] >= 1,
        unique_nonzero_ids(old(clients)@),
        data@.len() < 0xffffffff,
    ensures
        final(clients)@.len() == old(clients)@.len(),
        unique_nonzero_ids(final(clients)@),
        forall|j: int|
            0 <= j < old(clients)@.len() ==> (if members@.contains(
                (#[trigger] old(clients)@[j]).id,
            ) && Some(old(clients)@[j].id) != except {
                spec_delivery(old(clients)@[j], final(clients)@[j], spec_frame(tokens.0, tokens.1, data@))
            } else {
                final(clients)@[j] == old(clients)@[j]
            }),
{
    let ghost frame = spec_frame(tokens.0, tokens.1, data@);
    let mut k: usize = 0;
    while k < members.len()
        invariant
            members@.no_duplicates(),
            forall|t: int| 0 <= t < members@.len() ==> #[trigger] members@[t] >= 1,
            unique_nonzero_ids(old(clients)@),
            data@.len() < 0xffffffff,
            frame == spec_frame(tokens.0, tokens.1, data@),
            k <= members@.len(),
            clients@.len() == old(clients)@.len(),
            forall|j: int|
                0 <= j < old(clients)@.len() ==> (if members@.take(k as int).contains(
                    (#[trigger] old(clients)@[j]).id,
                ) && Some(old(clients)@[j].id) != except {
                    spec_delivery(old(clients)@[j], clients@[j], frame)
                } else {
                    clients@[j] == old(clients)@[j]
                }),
        decreases members@.len() - k,
    {
        let m = members[k];
        let skip_member = match except {
            Some(x) => x == m,
            None => false,
        };
        proof {
            assert(members@.take(k + 1) =~= members@.take(k as int).push(members@[k as int]));
        }
        if !skip_member {
            match find_client(clients, m) {
                Some(idx) => {
                    proof {
                        assert(clients@[idx as int] == old(clients)@[idx as int]) by {
                            assert(old(clients)@[idx as int].id == m || clients@[idx as int]
                                != old(clients)@[idx as int]);
                            if clients@[idx as int] != old(clients)@[idx as int] {
                                assert(spec_delivery(
                                    old(clients)@[idx as int],
                                    clients@[idx as int],
                                    frame,
                                ));
                                assert(old(clients)@[idx as int].id == clients@[idx as int].id);
                                assert(members@.take(k as int).contains(m));
                                assert(false) by {
                                    let ghost t = choose|t: int|
                                        0 <= t < k && members@.take(k as int)[t] == m;
                                    assert(members@[t] == m);
                                    assert(members@[k as int] == m);
                                }
                            }
                        }
                    }
                    let cl = &mut clients[idx];
                    cl.send_data(tokens, data.clone());
                    proof {
                        lemma_after_delivery(
                            old(clients)@,
                            clients@,
                            members@,
                            k as int,
                            idx as int,
                            except,
                            frame,
                        );
                    }
                },
                None => {
                    proof {
                        assert forall|j: int|
                            0 <= j < old(clients)@.len() implies ((#[trigger] old(clients)@[j]).id != m) by {
                            assert(clients@[j].id == old(clients)@[j].id || clients@[j] == old(clients)@[j]);
                        }
                    }
                },
            }
        }
        k = k + 1;
    }
    proof {
        assert(members@.take(members@.len() as int) =~= members@);
        assert forall|i: int, j: int| 0 <= i < j < clients@.len() implies ((#[trigger] clients@[i]).id
            != (#[trigger] clients@[j]).id || clients@[i].id == 0) by {
            assert(clients@[i].id == (#[trigger] old(clients)@[i]).id || clients@[i] == old(clients)@[i]);
            assert(clients@[j].id == (#[trigger] old(clients)@[j]).id || clients@[j] == old(clients)@[j]);
        }
    }
}

/// Restores the fan-out invariant after one member received the frame.
proof fn lemma_after_delivery(
    orig: Seq<Client>,
    cur: Seq<Client>,
    members: Seq<u32>,
    k: int,
    idx: int,
    except: Option<u32>,
    frame: Seq<u8>,
)
    requires
        0 <= k < members.len(),
        members.no_duplicates(),
        unique_nonzero_ids(orig),
        forall|t: int| 0 <= t < members.len() ==> #[trigger] members[t] >= 1,
        orig.len() == cur.len(),
        0 <= idx < cur.len(),
        orig[idx].id == members[k],
        Some(orig[idx].id) != except,
        spec_delivery(orig[idx], cur[idx], frame),
        forall|j: int|
            0 <= j < orig.len() && j != idx ==> (if members.take(k).contains(
                (#[trigger] orig[j]).id,
            ) && Some(orig[j].id) != except {
                spec_delivery(orig[j], cur[j], frame)
            } else {
                cur[j] == orig[j]
            }),
    ensures
        forall|j: int|
            0 <= j < orig.len() ==> (if members.take(k + 1).contains((#[trigger] orig[j]).id)
                && Some(orig[j].id) != except {
                spec_delivery(orig[j], cur[j], frame)
            } else {
                cur[j] == orig[j]
            }),
{
    assert(members.take(k + 1) =~= members.take(k).push(members[k]));
    assert forall|j: int| 0 <= j < orig.len() implies (if members.take(k + 1).contains(
        (#[trigger] orig[j]).id,
    ) && Some(orig[j].id) != except {
        spec_delivery(orig[j], cur[j], frame)
    } else {
        cur[j] == orig[j]
    }) by {
        if j == idx {
            assert(members.take(k + 1).contains(orig[j].id)) by {
                assert(members.take(k + 1)[k] == members[k]);
            }
        } else {
            if members.take(k + 1).contains(orig[j].id) && Some(orig[j].id) != except {
                if orig[j].id == members[k] {
                    assert(orig[j].id == orig[idx].id);
                    assert(orig[j].id >= 1);
                    assert(false);
                } else {
                    assert(members.take(k).contains(orig[j].id)) by {
                        let t = choose|t: int|
                            0 <= t < k + 1 && #[trigger] members.take(k + 1)[t] == orig[j].id;
                        assert(members[t] == orig[j].id);
                        assert(t < k);
                        assert(members.take(k)[t] == orig[j].id);
                    }
                }
            } else {
                if members.take(k).contains(orig[j].id) && Some(orig[j].id) != except {
                    assert(members.take(k + 1).contains(orig[j].id)) by {
                        let t = choose|t: int|
                            0 <= t < k && #[trigger] members.take(k)[t] == orig[j].id;
                        assert(members.take(k + 1)[t] == orig[j].id);
                    }
                }
            }
        }
    }
}

} // verus!
