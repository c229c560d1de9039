use vstd::prelude::*;
use vstd::string::{StrSliceExecFns, StringExecFns};
use vstd::utf8::encode_utf8;

use crate::bytearray::{bool_byte, u16_be, u32_be, u64_be, utf_wire, ByteArray};
use crate::framer::{build_frame, spec_frame};
use crate::room::Room;
use crate::text::{lemma_encode_utf8_concat, lemma_encode_utf8_len, parse_hex_u32,
    spec_parse_hex_u32};
use crate::utils::OldData;

verus! {

/// Per-connection session state: identity, locale, transient play state, and
/// the outbound frame queue that a writer task drains onto the socket.
pub struct Client {
    /// Registry-assigned connection handle: unlike the player id, it exists
    /// from the moment the socket is accepted.
    pub conn: u64,
    pub address: String,
    /// Registry id of the room this session is in, if any.
    pub room: Option<u64>,
    /// Frames queued for the writer task, oldest first.
    pub outbound: Vec<ByteArray>,
    pub color: String,
    pub name: String,
    pub nick_color: String,
    pub tag: String,
    pub lang: String,
    pub look: String,
    pub computer_lang: String,
    pub computer_os: String,
    pub last_room: String,
    pub shaman_color: String,
    pub id: u32,
    pub auth_key: i32,
    pub gender: u8,
    pub last_response: u128,
    pub packet_id: u8,
    pub position_x: u64,
    pub position_y: u64,
    pub priv_level: i8,
    pub time_played: u64,
    pub title_number: u16,
    pub title_stars: u8,
    pub score: u16,
    pub speed_x: u16,
    pub speed_y: u16,
    pub start_time: u128,
    pub has_cheese: bool,
    pub is_closed: bool,
    pub is_dead: bool,
    pub is_guest: bool,
    pub is_jumping: bool,
    pub is_moving_right: bool,
    pub is_moving_left: bool,
    pub is_shaman: bool,
    pub version_validated: bool,
    pub last_ping: bool,
    pub ping: (u8, u128),
}

impl Client {
    /// Bounds that every live session keeps: colors parse as 32-bit hex and
    /// the texts that go into packets fit their length prefixes.
    pub open spec fn wf(&self) -> bool {
        &&& spec_parse_hex_u32(self.color@) is Some
        &&& spec_parse_hex_u32(self.nick_color@) is Some
        &&& spec_parse_hex_u32(self.shaman_color@) is Some
        &&& encode_utf8(self.name@).len() <= 1000
        &&& encode_utf8(self.tag@).len() <= 100
        &&& encode_utf8(self.address@).len() <= 1000
        &&& encode_utf8(self.look@).len() <= 10000
        &&& encode_utf8(self.lang@).len() <= 100
    }

    /// The display name other players see: guests keep their bare name, a
    /// session that never logged in shows its address, and everyone else is
    /// `name#tag`.
    pub open spec fn spec_full_name(&self) -> Seq<char> {
        if self.is_guest {
            self.name@
        } else if self.name@.len() == 0 {
            self.address@
        } else {
            self.name@ + seq!['#'] + self.tag@
        }
    }

    /// All fields equal except the outbound queue and the packet counter.
    pub open spec fn same_except_io(a: Client, b: Client) -> bool {
        &&& a.conn == b.conn
        &&& a.address == b.address
        &&& a.room == b.room
        &&& a.color == b.color
        &&& a.name == b.name
        &&& a.nick_color == b.nick_color
        &&& a.tag == b.tag
        &&& a.lang == b.lang
        &&& a.look == b.look
        &&& a.computer_lang == b.computer_lang
        &&& a.computer_os == b.computer_os
        &&& a.last_room == b.last_room
        &&& a.shaman_color == b.shaman_color
        &&& a.id == b.id
        &&& a.auth_key == b.auth_key
        &&& a.gender == b.gender
        &&& a.last_response == b.last_response
        &&& a.position_x == b.position_x
        &&& a.position_y == b.position_y
        &&& a.priv_level == b.priv_level
        &&& a.time_played == b.time_played
        &&& a.title_number == b.title_number
        &&& a.title_stars == b.title_stars
        &&& a.score == b.score
        &&& a.speed_x == b.speed_x
        &&& a.speed_y == b.speed_y
        &&& a.start_time == b.start_time
        &&& a.has_cheese == b.has_cheese
        &&& a.is_closed == b.is_closed
        &&& a.is_dead == b.is_dead
        &&& a.is_guest == b.is_guest
        &&& a.is_jumping == b.is_jumping
        &&& a.is_moving_right == b.is_moving_right
        &&& a.is_moving_left == b.is_moving_left
        &&& a.is_shaman == b.is_shaman
        &&& a.version_validated == b.version_validated
        &&& a.last_ping == b.last_ping
        &&& a.ping == b.ping
    }

    /// The queued frames, as byte sequences.
    pub open spec fn queue(&self) -> Seq<Seq<u8>> {
        self.outbound.deep_view()
    }

    /// The identity half of a session is untouched: who it is, where it is,
    /// and what it may do.
    pub open spec fn same_identity(a: Client, b: Client) -> bool {
        &&& a.id == b.id
        &&& a.conn == b.conn
        &&& a.name == b.name
        &&& a.tag == b.tag
        &&& a.is_guest == b.is_guest
        &&& a.priv_level == b.priv_level
        &&& a.room == b.room
        &&& a.lang == b.lang
        &&& a.is_closed == b.is_closed
    }

    /// The round-scoped flags and score are untouched.
    pub open spec fn same_round_flags(a: Client, b: Client) -> bool {
        &&& a.has_cheese == b.has_cheese
        &&& a.is_dead == b.is_dead
        &&& a.is_shaman == b.is_shaman
        &&& a.is_jumping == b.is_jumping
        &&& a.is_moving_right == b.is_moving_right
        &&& a.is_moving_left == b.is_moving_left
        &&& a.score == b.score
    }

    pub fn new(address: String) -> (r: Self)
        requires
            encode_utf8(address@).len() <= 1000,
        ensures
            r.wf(),
            r.conn == 0,
            r.address == address,
            r.room is None,
            r.queue() == Seq::<Seq<u8>>::empty(),
            r.color@ == "95d9d6"@,
            r.name@.len() == 0,
            r.nick_color@ == "953"@,
            r.tag@ == "0000"@,
            r.lang@.len() == 0,
            r.look@ == "1;0,0,0,0,0,0,0,0,0,0,0"@,
            r.last_room@.len() == 0,
            r.shaman_color@ == "95fe3f"@,
            r.id == 0,
            r.auth_key == 0,
            r.gender == 2,
            r.last_response == 0,
            r.packet_id == 0,
            r.position_x == 0,
            r.position_y == 0,
            r.priv_level == 1,
            r.title_number == 5,
            r.title_stars == 3,
            r.time_played == 0,
            r.score == 0,
            r.speed_x == 0,
            r.speed_y == 0,
            r.start_time == 0,
            !r.has_cheese,
            !r.is_closed,
            r.is_dead,
            !r.is_guest,
            !r.is_jumping,
            !r.is_moving_right,
            !r.is_moving_left,
            !r.is_shaman,
            !r.version_validated,
            !r.last_ping,
            r.ping == (0u8, 0u128),
    {
        proof {
            lemma_literal_fields();
        }
        Client {
            conn: 0,
            address,
            room: None,
            outbound: Vec::new(),
            color: String::from_str("95d9d6"),
            name: String::new(),
            nick_color: String::from_str("953"),
            tag: String::from_str("0000"),
            lang: String::new(),
            look: String::from_str("1;0,0,0,0,0,0,0,0,0,0,0"),
            computer_lang: String::new(),
            computer_os: String::new(),
            last_room: String::new(),
            shaman_color: String::from_str("95fe3f"),
            id: 0,
            auth_key: 0,
            gender: 2,
            last_response: 0,
            packet_id: 0,
            position_x: 0,
            position_y: 0,
            priv_level: 1,
            time_played: 0,
            title_number: 5,
            title_stars: 3,
            score: 0,
            speed_x: 0,
            speed_y: 0,
            start_time: 0,
            has_cheese: false,
            is_closed: false,
            is_dead: true,
            is_guest: false,
            is_jumping: false,
            is_moving_right: false,
            is_moving_left: false,
            is_shaman: false,
            version_validated: false,
            last_ping: false,
            ping: (0, 0),
        }
    }

    pub fn address(&self) -> (r: &str)
        ensures
            r@ == self.address@,
    {
        self.address.as_str()
    }

    pub fn is_souris(&self) -> (r: bool)
        ensures
            r == self.is_guest,
    {
        self.is_guest
    }

    pub fn full_name(&self) -> (r: String)
        ensures
            r@ == self.spec_full_name(),
    {
        if self.is_souris() {
            return self.name.clone();
        }
        if self.name.as_str().is_empty() {
            return self.address.clone();
        }
        let r = self.name.clone().concat("#").concat(self.tag.as_str());
        proof {
            reveal_strlit("#");
            assert("#"@ =~= seq!['#']);
            assert((self.name@ + "#"@) + self.tag@ =~= self.name@ + seq!['#'] + self.tag@);
        }
        r
    }

    /// The wire image of this player in list and respawn packets.
    pub open spec fn spec_player_data(&self) -> Seq<u8> {
        utf_wire(self.spec_full_name()) + u32_be(self.id) + bool_byte(self.is_shaman) + bool_byte(
            self.is_dead,
        ) + u16_be(self.score) + bool_byte(self.has_cheese) + u16_be(self.title_number) + seq![
            self.title_stars,
            self.gender,
        ] + utf_wire(Seq::<char>::empty()) + utf_wire(self.look@) + bool_byte(false) + u32_be(
            spec_parse_hex_u32(self.color@).unwrap() as u32,
        ) + u32_be(spec_parse_hex_u32(self.shaman_color@).unwrap() as u32) + u32_be(0) + u32_be(
            spec_parse_hex_u32(self.nick_color@).unwrap() as u32,
        )
    }

    pub fn player_data(&self) -> (r: ByteArray)
        requires
            self.wf(),
        ensures
            r@ == self.spec_player_data(),
    {
        proof {
            lemma_full_name_len(self);
            reveal_strlit("");
            assert(""@ =~= Seq::<char>::empty());
        }
        let full = self.full_name();
        let color = match parse_hex_u32(self.color.as_str()) {
            Some(v) => v,
            None => unreached(),
        };
        let shaman_color = match parse_hex_u32(self.shaman_color.as_str()) {
            Some(v) => v,
            None => unreached(),
        };
        let nick_color = match parse_hex_u32(self.nick_color.as_str()) {
            Some(v) => v,
            None => unreached(),
        };
        let r = ByteArray::new().write_utf(full.as_str()).write_u32(self.id).write_bool(
            self.is_shaman,
        ).write_bool(self.is_dead).write_u16(self.score).write_bool(self.has_cheese).write_u16(
            self.title_number,
        ).write_u8(self.title_stars).write_u8(self.gender).write_utf("").write_utf(
            self.look.as_str(),
        ).write_bool(false).write_u32(color).write_u32(shaman_color).write_u32(0).write_u32(
            nick_color,
        );
        proof {
            assert(r@ =~= self.spec_player_data());
        }
        r
    }

    /// Clears the round-scoped flags at a map change or room exit.
    pub fn reset_player(&mut self)
        ensures
            *final(self) == (Client {
                has_cheese: false,
                is_dead: false,
                is_jumping: false,
                is_moving_right: false,
                is_moving_left: false,
                is_shaman: false,
                ..*old(self)
            }),
    {
        self.has_cheese = false;
        self.is_dead = false;
        self.is_jumping = false;
        self.is_moving_right = false;
        self.is_moving_left = false;
        self.is_shaman = false;
    }

    /// Frames a packet and queues it for the writer; once the session is
    /// closed every send is a silent no-op.
    pub fn send_data(&mut self, tokens: (u8, u8), data: ByteArray)
        requires
            data@.len() < 0xffffffff,
        ensures
            Client::same_except_io(*old(self), *final(self)),
            old(self).is_closed ==> final(self).queue() == old(self).queue() && final(self).packet_id == old(self).packet_id,
            !old(self).is_closed ==> final(self).queue() == old(self).queue().push(
                spec_frame(tokens.0, tokens.1, data@),
            ) && final(self).packet_id == ((old(self).packet_id + 1) % 255) as u8,
    {
        if self.is_closed {
            return ;
        }
        self.packet_id = (((self.packet_id as u16) + 1) % 255) as u8;
        let frame = build_frame(tokens.0, tokens.1, &data);
        self.outbound.push(frame);
        proof {
            assert(final(self).queue() =~= old(self).queue().push(
                spec_frame(tokens.0, tokens.1, data@),
            ));
        }
    }

    /// Queues a legacy-format message: the legacy payload is itself framed as
    /// the text field of a (1, 1) packet.
    pub fn send_old_data(&mut self, tokens: (u8, u8), old_data: Vec<OldData>)
        requires
            3 + spec_old_fields(old_data@).len() <= 0xffff,
        ensures
            Client::same_except_io(*old(self), *final(self)),
            old(self).is_closed ==> final(self).queue() == old(self).queue() && final(self).packet_id == old(self).packet_id,
            !old(self).is_closed ==> final(self).queue() == old(self).queue().push(
                spec_frame(1, 1, spec_old_packet(tokens, old_data@)),
            ) && final(self).packet_id == ((old(self).packet_id + 1) % 255) as u8,
    {
        let p = old_data_payload(tokens, &old_data);
        let data = ByteArray::new().write_u16(p.len() as u16).write_bytes(p.as_bytes());
        proof {
            assert(data@ =~= spec_old_packet(tokens, old_data@));
        }
        self.send_data((1, 1), data);
    }

    /// Builds and queues the map-load packet for this session. Returns false
    /// without touching the queue when compression fails or the compressed
    /// markup cannot fit the packet's length field.
    pub fn load_map(&mut self, room: &Room, players_count: i16, new_map: bool, custom_map: bool)
        -> (r: bool)
        requires
            room.wf(),
        ensures
            Client::same_except_io(*old(self), *final(self)),
            r <==> spec_zlib_len(*room, custom_map) <= 0x7fffffff,
            !r ==> final(self).queue() == old(self).queue() && final(self).packet_id == old(
                self,
            ).packet_id,
            r && old(self).is_closed ==> final(self).queue() == old(self).queue() && final(self).packet_id == old(self).packet_id,
            r && !old(self).is_closed ==> final(self).queue() == old(self).queue().push(
                spec_frame(
                    crate::tokens::NEW_MAP.0,
                    crate::tokens::NEW_MAP.1,
                    spec_new_map_payload(*room, players_count, new_map, custom_map),
                ),
            ) && final(self).packet_id == ((old(self).packet_id + 1) % 255) as u8,
    {
        let xml = if custom_map {
            room.map_xml.clone()
        } else {
            String::new()
        };
        let z = crate::utils::encode_xml(xml);
        if z.len() > 0x7fffffff {
            return false;
        }
        proof {
            reveal_strlit("-");
            reveal_strlit("");
            assert(""@ =~= Seq::<char>::empty());
            lemma_encode_utf8_len("-"@);
            lemma_encode_utf8_len(Seq::<char>::empty());
        }
        let data = ByteArray::new().write_i32(
            if new_map || custom_map {
                room.map_code
            } else {
                -1
            },
        ).write_i16(players_count).write_i8(room.last_round_code).write_i32(
            z.len() as i32,
        ).write_bytes(z.as_slice()).write_utf(
            if new_map {
                ""
            } else if custom_map {
                room.name.as_str()
            } else {
                "-"
            },
        ).write_i8(
            if new_map {
                0
            } else if custom_map {
                room.map_perma
            } else {
                100
            },
        ).write_bool(
            if custom_map {
                room.is_inverted_map
            } else {
                false
            },
        );
        proof {
            reveal_strlit("");
            assert(""@ =~= Seq::<char>::empty());
            assert(data@ =~= spec_new_map_payload(*room, players_count, new_map, custom_map));
        }
        self.send_data(crate::tokens::NEW_MAP, data);
        true
    }

    /// Queues the legacy sync message naming the round's sync code.
    pub fn sync(&mut self, map_code: i32, code: i32)
        ensures
            Client::same_except_io(*old(self), *final(self)),
            old(self).is_closed ==> final(self).queue() == old(self).queue() && final(self).packet_id == old(self).packet_id,
            !old(self).is_closed ==> final(self).queue() == old(self).queue().push(
                spec_frame(1, 1, spec_sync_packet(code)),
            ) && final(self).packet_id == ((old(self).packet_id + 1) % 255) as u8,
    {
        let mut fields: Vec<OldData> = Vec::new();
        fields.push(OldData::Integer(code));
        if map_code != 1 {
            fields.push(OldData::String(String::new()));
        }
        proof {
            lemma_sync_fields(fields@, code);
        }
        self.send_old_data(crate::tokens::OLD_SYNC, fields);
    }

    /// Marks the session closed; idempotent, and all later sends are dropped.
    pub fn close(&mut self)
        ensures
            *final(self) == (Client { is_closed: true, ..*old(self) }),
    {
        self.is_closed = true;
    }

    pub fn update_last_response(&mut self, now: u128)
        ensures
            *final(self) == (Client { last_response: now, ..*old(self) }),
    {
        self.last_response = now;
    }
}

proof fn lemma_literal_fields()
    ensures
        spec_parse_hex_u32("95d9d6"@) is Some,
        spec_parse_hex_u32("953"@) is Some,
        spec_parse_hex_u32("95fe3f"@) is Some,
        encode_utf8("0000"@).len() <= 100,
        encode_utf8("1;0,0,0,0,0,0,0,0,0,0,0"@).len() <= 10000,
        encode_utf8(Seq::<char>::empty()).len() == 0,
{
    reveal_strlit("95d9d6");
    reveal_strlit("953");
    reveal_strlit("95fe3f");
    reveal_strlit("0000");
    reveal_strlit("1;0,0,0,0,0,0,0,0,0,0,0");
    assert("95d9d6"@ =~= seq!['9', '5', 'd', '9', 'd', '6']);
    assert("953"@ =~= seq!['9', '5', '3']);
    assert("95fe3f"@ =~= seq!['9', '5', 'f', 'e', '3', 'f']);
    assert(crate::text::all_hex_digits("95d9d6"@));
    assert(crate::text::all_hex_digits("953"@));
    assert(crate::text::all_hex_digits("95fe3f"@));
    lemma_hex_literal("95d9d6"@);
    lemma_hex_literal("953"@);
    lemma_hex_literal("95fe3f"@);
    lemma_encode_utf8_len("0000"@);
    lemma_encode_utf8_len("1;0,0,0,0,0,0,0,0,0,0,0"@);
}

/// A non-empty string of at most eight hex digits parses as a `u32`.
proof fn lemma_hex_literal(s: Seq<char>)
    requires
        1 <= s.len() <= 8,
        crate::text::all_hex_digits(s),
    ensures
        spec_parse_hex_u32(s) is Some,
{
    lemma_hex_value_bound(s, 8);
    reveal_with_fuel(vstd::arithmetic::power::pow, 9);
    assert(vstd::arithmetic::power::pow(16, 8) == 0x100000000);
}

/// A hex string of at most `k` digits stays below `16^k`.
proof fn lemma_hex_value_bound(s: Seq<char>, k: nat)
    requires
        s.len() <= k,
        crate::text::all_hex_digits(s),
    ensures
        0 <= crate::text::spec_hex_value(s) < vstd::arithmetic::power::pow(16, k),
    decreases k,
{
    reveal(vstd::arithmetic::power::pow);
    vstd::arithmetic::power::lemma_pow_positive(16, k);
    if s.len() > 0 {
        assert(crate::text::all_hex_digits(s.drop_last()));
        lemma_hex_value_bound(s.drop_last(), (k - 1) as nat);
        let v = crate::text::spec_hex_value(s.drop_last());
        let p = vstd::arithmetic::power::pow(16, (k - 1) as nat);
        assert(vstd::arithmetic::power::pow(16, k) == 16 * p);
        assert(v * 16 + 15 < 16 * p) by (nonlinear_arith)
            requires
                0 <= v < p,
        ;
    }
}

/// The full name of a well-formed session fits a text field.
pub proof fn lemma_full_name_len(c: &Client)
    requires
        c.wf(),
    ensures
        encode_utf8(c.spec_full_name()).len() <= 2000,
{
    if c.is_guest {
    } else if c.name@.len() == 0 {
    } else {
        lemma_encode_utf8_concat(c.name@ + seq!['#'], c.tag@);
        lemma_encode_utf8_concat(c.name@, seq!['#']);
        lemma_encode_utf8_len(seq!['#']);
    }
}

/// Length of the compressed markup the map-load packet would carry.
pub open spec fn spec_zlib_len(room: Room, custom_map: bool) -> int {
    crate::utils::zlib_of(
        encode_utf8(
            if custom_map {
                room.map_xml@
            } else {
                Seq::<char>::empty()
            },
        ),
    ).len() as int
}

/// The map-load packet payload: map identity, player count, round code, the
/// compressed markup, and the name/permanence trailer.
pub open spec fn spec_new_map_payload(
    room: Room,
    players_count: i16,
    new_map: bool,
    custom_map: bool,
) -> Seq<u8> {
    let z = crate::utils::zlib_of(
        encode_utf8(
            if custom_map {
                room.map_xml@
            } else {
                Seq::<char>::empty()
            },
        ),
    );
    u32_be(
        (if new_map || custom_map {
            room.map_code
        } else {
            -1i32
        }) as u32,
    ) + u16_be(players_count as u16) + seq![room.last_round_code as u8] + u32_be(z.len() as u32) + z
        + utf_wire(
        if new_map {
            Seq::<char>::empty()
        } else if custom_map {
            room.name@
        } else {
            "-"@
        },
    ) + seq![
        (if new_map {
            0i8
        } else if custom_map {
            room.map_perma
        } else {
            100i8
        }) as u8,
    ] + bool_byte(
        if custom_map {
            room.is_inverted_map
        } else {
            false
        },
    )
}

/// The legacy sync message as the payload of its carrier packet; the field
/// list always serialises to the round code's four bytes.
pub open spec fn spec_sync_packet(code: i32) -> Seq<u8> {
    u16_be(7) + seq![1u8, crate::tokens::OLD_SYNC.0, crate::tokens::OLD_SYNC.1] + u32_be(
        code as u32,
    )
}

proof fn lemma_sync_fields(fields: Seq<OldData>, code: i32)
    requires
        fields.len() >= 1,
        fields[0] == OldData::Integer(code),
        fields.len() <= 2,
        fields.len() == 2 ==> (fields[1] matches OldData::String(s) && s@.len() == 0),
    ensures
        spec_old_fields(fields) == u32_be(code as u32),
        spec_old_packet(crate::tokens::OLD_SYNC, fields) == spec_sync_packet(code),
{
    reveal_with_fuel(spec_old_fields, 3);
    if fields.len() == 1 {
        assert(fields.drop_last() =~= Seq::<OldData>::empty());
        assert(spec_old_fields(fields) =~= u32_be(code as u32));
    } else {
        assert(fields.drop_last().drop_last() =~= Seq::<OldData>::empty());
        assert(fields.drop_last()[0] == fields[0]);
        assert(spec_old_fields(fields.drop_last()) =~= u32_be(code as u32));
        assert(spec_old_field(fields.last()).len() == 0);
        assert(spec_old_fields(fields) =~= u32_be(code as u32));
    }
    assert(spec_old_packet(crate::tokens::OLD_SYNC, fields) =~= spec_sync_packet(code));
}

/// Index of the first session with the given id, as a specification value.
pub open spec fn spec_find_id(cs: Seq<Client>, id: u32) -> Option<int>
    decreases cs.len(),
{
    if cs.len() == 0 {
        None
    } else if cs[0].id == id {
        Some(0)
    } else {
        match spec_find_id(cs.skip(1), id) {
            Some(i) => Some(i + 1),
            None => None,
        }
    }
}

/// The first-match characterisation pins `spec_find_id` down.
pub proof fn lemma_find_id_characterise(cs: Seq<Client>, id: u32, i: int)
    requires
        0 <= i < cs.len(),
        cs[i].id == id,
        forall|j: int| 0 <= j < i ==> (#[trigger] cs[j]).id != id,
    ensures
        spec_find_id(cs, id) == Some(i),
    decreases cs.len(),
{
    if i > 0 {
        assert(forall|j: int| 0 <= j < i - 1 ==> (#[trigger] cs.skip(1)[j]).id != id);
        assert(cs.skip(1)[i - 1].id == id);
        lemma_find_id_characterise(cs.skip(1), id, i - 1);
    }
}

/// No match anywhere means `spec_find_id` finds nothing.
pub proof fn lemma_find_id_none(cs: Seq<Client>, id: u32)
    requires
        forall|j: int| 0 <= j < cs.len() ==> (#[trigger] cs[j]).id != id,
    ensures
        spec_find_id(cs, id) is None,
    decreases cs.len(),
{
    if cs.len() > 0 {
        assert(forall|j: int| 0 <= j < cs.skip(1).len() ==> (#[trigger] cs.skip(1)[j]).id != id);
        lemma_find_id_none(cs.skip(1), id);
    }
}

/// A found index is in range and carries the id.
pub proof fn lemma_find_id_some(cs: Seq<Client>, id: u32)
    ensures
        match spec_find_id(cs, id) {
            Some(t) => 0 <= t < cs.len() && cs[t].id == id,
            None => true,
        },
    decreases cs.len(),
{
    if cs.len() > 0 && cs[0].id != id {
        lemma_find_id_some(cs.skip(1), id);
    }
}

/// Index of the first session with the given connection handle.
pub fn find_conn(clients: &Vec<Client>, conn: u64) -> (r: Option<usize>)
    ensures
        match r {
            Some(i) => i < clients@.len() && clients@[i as int].conn == conn && (forall|j: int|
                0 <= j < i ==> (#[trigger] clients@[j]).conn != conn),
            None => forall|j: int| 0 <= j < clients@.len() ==> (#[trigger] clients@[j]).conn != conn,
        },
{
    let mut i: usize = 0;
    while i < clients.len()
        invariant
            i <= clients@.len(),
            forall|j: int| 0 <= j < i ==> (#[trigger] clients@[j]).conn != conn,
        decreases clients@.len() - i,
    {
        if clients[i].conn == conn {
            return Some(i);
        }
        i = i + 1;
    }
    None
}

/// Index of the first session with the given id, scanning in registry order.
pub fn find_client(clients: &Vec<Client>, id: u32) -> (r: Option<usize>)
    ensures
        match r {
            Some(i) => i < clients@.len() && clients@[i as int].id == id && (forall|j: int|
                0 <= j < i ==> (#[trigger] clients@[j]).id != id) && spec_find_id(clients@, id)
                == Some(i as int),
            None => (forall|j: int|
                0 <= j < clients@.len() ==> (#[trigger] clients@[j]).id != id) && spec_find_id(
                clients@,
                id,
            ) is None,
        },
{
    let mut i: usize = 0;
    while i < clients.len()
        invariant
            i <= clients@.len(),
            forall|j: int| 0 <= j < i ==> (#[trigger] clients@[j]).id != id,
        decreases clients@.len() - i,
    {
        if clients[i].id == id {
            proof {
                lemma_find_id_characterise(clients@, id, i as int);
            }
            return Some(i);
        }
        i = i + 1;
    }
    proof {
        lemma_find_id_none(clients@, id);
    }
    None
}

/// The player-data image of a well-formed session is boundedly small.
pub proof fn lemma_player_data_len(c: &Client)
    requires
        c.wf(),
    ensures
        c.spec_player_data().len() <= 13000,
{
    lemma_full_name_len(c);
    assert(encode_utf8(Seq::<char>::empty()).len() == 0);
}

/// Concatenated field image of a legacy message body.
pub open spec fn spec_old_field(d: OldData) -> Seq<u8> {
    match d {
        OldData::String(s) => encode_utf8(s@),
        OldData::Bool(b) => bool_byte(b),
        OldData::Byte(b) => seq![b as u8],
        OldData::Short(v) => u16_be(v as u16),
        OldData::Integer(v) => u32_be(v as u32),
        OldData::Long(v) => u64_be(v as u64),
    }
}

pub open spec fn spec_old_fields(fields: Seq<OldData>) -> Seq<u8>
    decreases fields.len(),
{
    if fields.len() == 0 {
        Seq::empty()
    } else {
        spec_old_fields(fields.drop_last()) + spec_old_field(fields.last())
    }
}

/// A whole legacy message: marker byte, token pair, then the raw fields.
pub open spec fn spec_old_payload(tokens: (u8, u8), fields: Seq<OldData>) -> Seq<u8> {
    seq![1u8, tokens.0, tokens.1] + spec_old_fields(fields)
}

/// The legacy message as the payload of its carrier (1, 1) packet.
pub open spec fn spec_old_packet(tokens: (u8, u8), fields: Seq<OldData>) -> Seq<u8> {
    u16_be((3 + spec_old_fields(fields).len()) as u16) + spec_old_payload(tokens, fields)
}

/// Serialises a legacy message body once, to be framed for each receiver.
pub fn old_data_payload(tokens: (u8, u8), fields: &Vec<OldData>) -> (r: ByteArray)
    requires
        3 + spec_old_fields(fields@).len() <= 0xffff,
    ensures
        r@ == spec_old_payload(tokens, fields@),
        r@.len() <= 0xffff,
{
    let mut p = ByteArray::new().write_u8(1).write_u8(tokens.0).write_u8(tokens.1);
    proof {
        assert(fields@.take(0) =~= Seq::<OldData>::empty());
        assert(p@ =~= seq![1u8, tokens.0, tokens.1] + spec_old_fields(
            fields@.take(0),
        ));
    }
    let mut i: usize = 0;
    while i < fields.len()
        invariant
            i <= fields@.len(),
            fields@.len() == fields@.len(),
            3 + spec_old_fields(fields@).len() <= 0xffff,
            p@ == seq![1u8, tokens.0, tokens.1] + spec_old_fields(fields@.take(i as int)),
        decreases fields@.len() - i,
    {
        let ghost pre = fields@.take(i as int);
        proof {
            assert(fields@.take(i + 1) =~= pre.push(fields@[i as int]));
            assert(pre.push(fields@[i as int]).drop_last() =~= pre);
        }
        p = match &fields[i] {
            OldData::String(s) => p.write_bytes(s.as_str().as_bytes()),
            OldData::Bool(b) => p.write_bool(*b),
            OldData::Byte(b) => p.write_i8(*b),
            OldData::Short(v) => p.write_i16(*v),
            OldData::Integer(v) => p.write_i32(*v),
            OldData::Long(v) => p.write_i64(*v),
        };
        proof {
            assert(p@ =~= seq![1u8, tokens.0, tokens.1] + spec_old_fields(
                fields@.take(i + 1),
            ));
        }
        i = i + 1;
    }
    proof {
        assert(fields@.take(fields@.len() as int) =~= fields@);
    }
    p
}

} // verus!
