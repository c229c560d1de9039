use vstd::prelude::*;
use vstd::utf8::{decode_utf8, encode_utf8, valid_utf8};

verus! {

/// Big-endian byte image of a `u16`.
pub open spec fn u16_be(v: u16) -> Seq<u8> {
    seq![(v >> 8) as u8, v as u8]
}

/// Big-endian byte image of a `u32`.
pub open spec fn u32_be(v: u32) -> Seq<u8> {
    seq![(v >> 24) as u8, (v >> 16) as u8, (v >> 8) as u8, v as u8]
}

/// Big-endian byte image of a `u64`.
pub open spec fn u64_be(v: u64) -> Seq<u8> {
    seq![
        (v >> 56) as u8,
        (v >> 48) as u8,
        (v >> 40) as u8,
        (v >> 32) as u8,
        (v >> 24) as u8,
        (v >> 16) as u8,
        (v >> 8) as u8,
        v as u8,
    ]
}

/// The `u16` read back from two big-endian bytes.
pub open spec fn u16_of_be(b: Seq<u8>) -> u16
    recommends
        b.len() == 2,
{
    ((b[0] as u16) << 8) | (b[1] as u16)
}

/// The `u32` read back from four big-endian bytes.
pub open spec fn u32_of_be(b: Seq<u8>) -> u32
    recommends
        b.len() == 4,
{
    ((b[0] as u32) << 24) | ((b[1] as u32) << 16) | ((b[2] as u32) << 8) | (b[3] as u32)
}

/// The `u64` read back from eight big-endian bytes.
pub open spec fn u64_of_be(b: Seq<u8>) -> u64
    recommends
        b.len() == 8,
{
    ((b[0] as u64) << 56) | ((b[1] as u64) << 48) | ((b[2] as u64) << 40) | ((b[3] as u64) << 32)
        | ((b[4] as u64) << 24) | ((b[5] as u64) << 16) | ((b[6] as u64) << 8) | (b[7] as u64)
}

/// The `u128` read back from sixteen big-endian bytes.
pub open spec fn u128_of_be(b: Seq<u8>) -> u128
    recommends
        b.len() == 16,
{
    ((u64_of_be(b.take(8)) as u128) << 64) | (u64_of_be(b.skip(8)) as u128)
}

/// Reading two big-endian bytes undoes writing them.
pub proof fn lemma_u16_be_round_trip(v: u16)
    ensures
        u16_of_be(u16_be(v)) == v,
{
    assert((((v >> 8) as u8 as u16) << 8) | ((v as u8) as u16) == v) by (bit_vector);
}

/// Reading four big-endian bytes undoes writing them.
pub proof fn lemma_u32_be_round_trip(v: u32)
    ensures
        u32_of_be(u32_be(v)) == v,
{
    assert((((v >> 24) as u8 as u32) << 24) | (((v >> 16) as u8 as u32) << 16) | (((v
        >> 8) as u8 as u32) << 8) | ((v as u8) as u32) == v) by (bit_vector);
}

/// Reading eight big-endian bytes undoes writing them.
pub proof fn lemma_u64_be_round_trip(v: u64)
    ensures
        u64_of_be(u64_be(v)) == v,
{
    assert((((v >> 56) as u8 as u64) << 56) | (((v >> 48) as u8 as u64) << 48) | (((v
        >> 40) as u8 as u64) << 40) | (((v >> 32) as u8 as u64) << 32) | (((v
        >> 24) as u8 as u64) << 24) | (((v >> 16) as u8 as u64) << 16) | (((v
        >> 8) as u8 as u64) << 8) | ((v as u8) as u64) == v) by (bit_vector);
}

/// One byte standing for a boolean on the wire.
pub open spec fn bool_byte(b: bool) -> Seq<u8> {
    seq![if b { 1u8 } else { 0u8 }]
}

/// Wire form of a text field: a two-byte big-endian byte count, then the
/// UTF-8 bytes themselves.
pub open spec fn utf_wire(s: Seq<char>) -> Seq<u8>
    recommends
        encode_utf8(s).len() <= 0xffff,
{
    u16_be(encode_utf8(s).len() as u16) + encode_utf8(s)
}

/// Relies on `String::from_utf8`: it succeeds exactly on valid UTF-8 input and
/// returns the decoded text.
#[verifier::external_body]
pub(crate) fn utf8_to_string(v: Vec<u8>) -> (r: Option<String>)
    ensures
        r is Some <==> valid_utf8(v@),
        r is Some ==> r.unwrap()@ == decode_utf8(v@),
{
    String::from_utf8(v).ok()
}

/// Reading one byte back undoes writing it, for the signed view as well.
pub proof fn lemma_i8_round_trip(v: i8)
    ensures
        (v as u8) as i8 == v,
{
    assert((v as u8) as i8 == v) by (bit_vector);
}

/// Reading two big-endian bytes undoes writing them, for the signed view.
pub proof fn lemma_i16_be_round_trip(v: i16)
    ensures
        u16_of_be(u16_be(v as u16)) as i16 == v,
{
    lemma_u16_be_round_trip(v as u16);
    assert((v as u16) as i16 == v) by (bit_vector);
}

/// Reading four big-endian bytes undoes writing them, for the signed view.
pub proof fn lemma_i32_be_round_trip(v: i32)
    ensures
        u32_of_be(u32_be(v as u32)) as i32 == v,
{
    lemma_u32_be_round_trip(v as u32);
    assert((v as u32) as i32 == v) by (bit_vector);
}

/// Reading eight big-endian bytes undoes writing them, for the signed view.
pub proof fn lemma_i64_be_round_trip(v: i64)
    ensures
        u64_of_be(u64_be(v as u64)) as i64 == v,
{
    lemma_u64_be_round_trip(v as u64);
    assert((v as u64) as i64 == v) by (bit_vector);
}

/// Reading the boolean byte back undoes writing it.
pub proof fn lemma_bool_round_trip(b: bool)
    ensures
        (bool_byte(b)[0] != 0) == b,
{
}

/// Law: a text field written in wire form reads back as exactly the text it
/// was written from, for every text whose bytes fit the two-byte count.
pub proof fn lemma_utf_wire_round_trip(s: Seq<char>)
    requires
        encode_utf8(s).len() <= 0xffff,
    ensures
        ByteArray::spec_utf_len(utf_wire(s)) == encode_utf8(s).len(),
        ByteArray::spec_utf_body(utf_wire(s)) == encode_utf8(s),
        valid_utf8(ByteArray::spec_utf_body(utf_wire(s))),
        decode_utf8(ByteArray::spec_utf_body(utf_wire(s))) == s,
{
    let w = utf_wire(s);
    let n = encode_utf8(s).len() as u16;
    assert(w.take(2) =~= u16_be(n));
    lemma_u16_be_round_trip(n);
    assert(ByteArray::spec_utf_body(w) =~= encode_utf8(s));
    vstd::utf8::encode_utf8_valid_utf8(s);
    vstd::utf8::encode_utf8_decode_utf8(s);
}

/// A byte buffer with builder-style writes at the back and cursor reads at the
/// front: the wire codec of every packet payload.
pub struct ByteArray {
    bytes: Vec<u8>,
}

impl Clone for ByteArray {
    fn clone(&self) -> (r: Self)
        ensures
            r@ == self@,
    {
        ByteArray { bytes: self.bytes.clone() }
    }
}

impl View for ByteArray {
    type V = Seq<u8>;

    closed spec fn view(&self) -> Seq<u8> {
        self.bytes@
    }
}

impl DeepView for ByteArray {
    type V = Seq<u8>;

    open spec fn deep_view(&self) -> Seq<u8> {
        self.view()
    }
}

impl Default for ByteArray {
    fn default() -> (r: Self)
        ensures
            r@ == Seq::<u8>::empty(),
    {
        ByteArray { bytes: Vec::new() }
    }
}

impl ByteArray {
    pub fn new() -> (r: Self)
        ensures
            r@ == Seq::<u8>::empty(),
    {
        ByteArray { bytes: Vec::new() }
    }

    pub fn with(bytes: Vec<u8>) -> (r: Self)
        ensures
            r@ == bytes@,
    {
        ByteArray { bytes }
    }

    pub fn len(&self) -> (r: usize)
        ensures
            r == self@.len(),
    {
        self.bytes.len()
    }

    pub fn is_empty(&self) -> (r: bool)
        ensures
            r == (self@.len() == 0),
    {
        self.bytes.len() == 0
    }

    pub fn as_bytes(&self) -> (r: &[u8])
        ensures
            r@ == self@,
    {
        self.bytes.as_slice()
    }

    pub fn to_vec(self) -> (r: Vec<u8>)
        ensures
            r@ == self@,
    {
        self.bytes
    }

    pub fn clear(&mut self)
        ensures
            final(self)@ == Seq::<u8>::empty(),
    {
        self.bytes.clear()
    }

    /// The byte at position `i`, without moving the cursor.
    pub(crate) fn get(&self, i: usize) -> (r: u8)
        requires
            i < self@.len(),
        ensures
            r == self@[i as int],
    {
        self.bytes[i]
    }

    /// Removes the first `k` bytes, advancing the read cursor.
    pub(crate) fn drop_front(&mut self, k: usize)
        requires
            k <= old(self)@.len(),
        ensures
            final(self)@ == old(self)@.skip(k as int),
    {
        let tail = self.bytes.split_off(k);
        self.bytes = tail;
    }

    /// A copy of the bytes `start..end`; the buffer itself is unchanged.
    pub fn offset(&mut self, start: usize, end: usize) -> (r: Self)
        requires
            start <= end <= old(self)@.len(),
        ensures
            final(self)@ == old(self)@,
            r@ == old(self)@.subrange(start as int, end as int),
    {
        let mut out: Vec<u8> = Vec::new();
        let mut i: usize = start;
        while i < end
            invariant
                start <= i <= end <= self@.len(),
                out@ == self@.subrange(start as int, i as int),
            decreases end - i,
        {
            out.push(self.bytes[i]);
            proof {
                assert(out@ =~= self@.subrange(start as int, i + 1));
            }
            i = i + 1;
        }
        ByteArray { bytes: out }
    }

    /// A copy of the first `length` bytes; the buffer itself is unchanged.
    pub fn read(&mut self, length: usize) -> (r: Self)
        requires
            length <= old(self)@.len(),
        ensures
            final(self)@ == old(self)@,
            r@ == old(self)@.take(length as int),
    {
        let r = self.offset(0, length);
        proof {
            assert(r@ =~= self@.take(length as int));
        }
        r
    }

    pub fn read_u8(&mut self) -> (r: u8)
        requires
            old(self)@.len() >= 1,
        ensures
            r == old(self)@[0],
            final(self)@ == old(self)@.skip(1),
    {
        let b = self.bytes[0];
        self.drop_front(1);
        b
    }

    pub fn read_i8(&mut self) -> (r: i8)
        requires
            old(self)@.len() >= 1,
        ensures
            r == old(self)@[0] as i8,
            final(self)@ == old(self)@.skip(1),
    {
        self.read_u8() as i8
    }

    pub fn read_u16(&mut self) -> (r: u16)
        requires
            old(self)@.len() >= 2,
        ensures
            r == u16_of_be(old(self)@.take(2)),
            final(self)@ == old(self)@.skip(2),
    {
        let b0 = self.bytes[0];
        let b1 = self.bytes[1];
        self.drop_front(2);
        ((b0 as u16) << 8) | (b1 as u16)
    }

    pub fn read_i16(&mut self) -> (r: i16)
        requires
            old(self)@.len() >= 2,
        ensures
            r == u16_of_be(old(self)@.take(2)) as i16,
            final(self)@ == old(self)@.skip(2),
    {
        self.read_u16() as i16
    }

    pub fn read_u32(&mut self) -> (r: u32)
        requires
            old(self)@.len() >= 4,
        ensures
            r == u32_of_be(old(self)@.take(4)),
            final(self)@ == old(self)@.skip(4),
    {
        let b0 = self.bytes[0];
        let b1 = self.bytes[1];
        let b2 = self.bytes[2];
        let b3 = self.bytes[3];
        self.drop_front(4);
        ((b0 as u32) << 24) | ((b1 as u32) << 16) | ((b2 as u32) << 8) | (b3 as u32)
    }

    pub fn read_i32(&mut self) -> (r: i32)
        requires
            old(self)@.len() >= 4,
        ensures
            r == u32_of_be(old(self)@.take(4)) as i32,
            final(self)@ == old(self)@.skip(4),
    {
        self.read_u32() as i32
    }

    pub fn read_u64(&mut self) -> (r: u64)
        requires
            old(self)@.len() >= 8,
        ensures
            r == u64_of_be(old(self)@.take(8)),
            final(self)@ == old(self)@.skip(8),
    {
        let b0 = self.bytes[0];
        let b1 = self.bytes[1];
        let b2 = self.bytes[2];
        let b3 = self.bytes[3];
        let b4 = self.bytes[4];
        let b5 = self.bytes[5];
        let b6 = self.bytes[6];
        let b7 = self.bytes[7];
        self.drop_front(8);
        ((b0 as u64) << 56) | ((b1 as u64) << 48) | ((b2 as u64) << 40) | ((b3 as u64) << 32) | ((
        b4 as u64) << 24) | ((b5 as u64) << 16) | ((b6 as u64) << 8) | (b7 as u64)
    }

    pub fn read_i64(&mut self) -> (r: i64)
        requires
            old(self)@.len() >= 8,
        ensures
            r == u64_of_be(old(self)@.take(8)) as i64,
            final(self)@ == old(self)@.skip(8),
    {
        self.read_u64() as i64
    }

    pub fn read_u128(&mut self) -> (r: u128)
        requires
            old(self)@.len() >= 16,
        ensures
            r == u128_of_be(old(self)@.take(16)),
            final(self)@ == old(self)@.skip(16),
    {
        let hi = self.read_u64();
        let lo = self.read_u64();
        proof {
            assert(old(self)@.take(16).take(8) =~= old(self)@.take(8));
            assert(old(self)@.take(16).skip(8) =~= old(self)@.skip(8).take(8));
        }
        ((hi as u128) << 64) | (lo as u128)
    }

    pub fn read_i128(&mut self) -> (r: i128)
        requires
            old(self)@.len() >= 16,
        ensures
            r == u128_of_be(old(self)@.take(16)) as i128,
            final(self)@ == old(self)@.skip(16),
    {
        self.read_u128() as i128
    }

    pub fn read_bool(&mut self) -> (r: bool)
        requires
            old(self)@.len() >= 1,
        ensures
            r == (old(self)@[0] != 0),
            final(self)@ == old(self)@.skip(1),
    {
        !(self.read_u8() == 0)
    }

    pub fn write_u8(self, byte: u8) -> (r: Self)
        ensures
            r@ == self@ + seq![byte],
    {
        let mut b = self;
        b.bytes.push(byte);
        proof {
            assert(b@ =~= self@ + seq![byte]);
        }
        b
    }

    pub fn write_i8(self, byte: i8) -> (r: Self)
        ensures
            r@ == self@ + seq![byte as u8],
    {
        self.write_u8(#[verifier::truncate] (byte as u8))
    }

    pub fn write_u16(self, short: u16) -> (r: Self)
        ensures
            r@ == self@ + u16_be(short),
    {
        let r = self.write_u8(#[verifier::truncate] ((short >> 8) as u8)).write_u8(
            #[verifier::truncate] (short as u8),
        );
        proof {
            assert(r@ =~= self@ + u16_be(short));
        }
        r
    }

    pub fn write_i16(self, short: i16) -> (r: Self)
        ensures
            r@ == self@ + u16_be(short as u16),
    {
        self.write_u16(#[verifier::truncate] (short as u16))
    }

    pub fn write_u32(self, val: u32) -> (r: Self)
        ensures
            r@ == self@ + u32_be(val),
    {
        let r = self.write_u8(#[verifier::truncate] ((val >> 24) as u8)).write_u8(
            #[verifier::truncate] ((val >> 16) as u8),
        ).write_u8(#[verifier::truncate] ((val >> 8) as u8)).write_u8(
            #[verifier::truncate] (val as u8),
        );
        proof {
            assert(r@ =~= self@ + u32_be(val));
        }
        r
    }

    pub fn write_i32(self, val: i32) -> (r: Self)
        ensures
            r@ == self@ + u32_be(val as u32),
    {
        self.write_u32(#[verifier::truncate] (val as u32))
    }

    pub fn write_u64(self, long: u64) -> (r: Self)
        ensures
            r@ == self@ + u64_be(long),
    {
        let r = self.write_u8(#[verifier::truncate] ((long >> 56) as u8)).write_u8(
            #[verifier::truncate] ((long >> 48) as u8),
        ).write_u8(#[verifier::truncate] ((long >> 40) as u8)).write_u8(
            #[verifier::truncate] ((long >> 32) as u8),
        ).write_u8(#[verifier::truncate] ((long >> 24) as u8)).write_u8(
            #[verifier::truncate] ((long >> 16) as u8),
        ).write_u8(#[verifier::truncate] ((long >> 8) as u8)).write_u8(
            #[verifier::truncate] (long as u8),
        );
        proof {
            assert(r@ =~= self@ + u64_be(long));
        }
        r
    }

    pub fn write_i64(self, long: i64) -> (r: Self)
        ensures
            r@ == self@ + u64_be(long as u64),
    {
        self.write_u64(#[verifier::truncate] (long as u64))
    }

    pub fn write_bool(self, byte: bool) -> (r: Self)
        ensures
            r@ == self@ + seq![if byte { 1u8 } else { 0u8 }],
    {
        self.write_u8(if byte { 1 } else { 0 })
    }

    pub fn write_bytes(self, bytes: &[u8]) -> (r: Self)
        ensures
            r@ == self@ + bytes@,
    {
        let mut b = self;
        b.bytes.extend_from_slice(bytes);
        b
    }

    /// Relies on `core::str::from_utf8`: the buffer is valid UTF-8, so decoding
    /// succeeds and returns its text.
    #[verifier::external_body]
    pub fn as_str(&self) -> (r: &str)
        requires
            valid_utf8(self@),
        ensures
            r@ == decode_utf8(self@),
    {
        core::str::from_utf8(&self.bytes).unwrap()
    }

    /// Appends text in the wire form: a two-byte big-endian byte count, then
    /// the UTF-8 bytes themselves.
    pub fn write_utf(self, utf: &str) -> (r: Self)
        requires
            encode_utf8(utf@).len() <= 0xffff,
        ensures
            r@ == self@ + u16_be(encode_utf8(utf@).len() as u16) + encode_utf8(utf@),
    {
        let l: usize = utf.len();
        let r = self.write_u16(l as u16).write_bytes(utf.as_bytes());
        proof {
            assert(r@ =~= self@ + u16_be(encode_utf8(utf@).len() as u16) + encode_utf8(utf@));
        }
        r
    }

    /// The byte count announced by the two-byte prefix at the cursor.
    pub open spec fn spec_utf_len(b: Seq<u8>) -> int {
        u16_of_be(b.take(2)) as int
    }

    /// The announced text bytes that follow the two-byte prefix.
    pub open spec fn spec_utf_body(b: Seq<u8>) -> Seq<u8> {
        b.subrange(2, 2 + Self::spec_utf_len(b))
    }

    pub fn read_utf(&mut self) -> (r: String)
        requires
            old(self)@.len() >= 2,
            2 + Self::spec_utf_len(old(self)@) <= old(self)@.len(),
            valid_utf8(Self::spec_utf_body(old(self)@)),
        ensures
            r@ == decode_utf8(Self::spec_utf_body(old(self)@)),
            final(self)@ == old(self)@.skip(2 + Self::spec_utf_len(old(self)@)),
    {
        let n = self.read_u16() as usize;
        let body = self.read(n);
        self.drop_front(n);
        proof {
            assert(body@ =~= Self::spec_utf_body(old(self)@));
            assert(final(self)@ =~= old(self)@.skip(2 + Self::spec_utf_len(old(self)@)));
        }
        match utf8_to_string(body.to_vec()) {
            Some(s) => s,
            None => unreached(),
        }
    }

    /// Like `read_utf`, but instead of preconditions it leaves the buffer
    /// unchanged and returns `None` when the prefix overruns the buffer or the
    /// announced bytes are not valid UTF-8.
    pub fn try_read_utf(&mut self) -> (r: Option<String>)
        ensures
            match r {
                Some(s) => {
                    &&& old(self)@.len() >= 2
                    &&& 2 + Self::spec_utf_len(old(self)@) <= old(self)@.len()
                    &&& valid_utf8(Self::spec_utf_body(old(self)@))
                    &&& s@ == decode_utf8(Self::spec_utf_body(old(self)@))
                    &&& final(self)@ == old(self)@.skip(2 + Self::spec_utf_len(old(self)@))
                },
                None => {
                    &&& final(self)@ == old(self)@
                    &&& (old(self)@.len() < 2 || 2 + Self::spec_utf_len(old(self)@) > old(
                        self,
                    )@.len() || !valid_utf8(Self::spec_utf_body(old(self)@)))
                },
            },
    {
        if self.bytes.len() < 2 {
            return None;
        }
        let n = (((self.bytes[0] as u16) << 8) | (self.bytes[1] as u16)) as usize;
        proof {
            assert(old(self)@.take(2)[0] == old(self)@[0]);
            assert(old(self)@.take(2)[1] == old(self)@[1]);
        }
        if n > self.bytes.len() - 2 {
            return None;
        }
        let body = self.offset(2, 2 + n);
        proof {
            assert(body@ =~= Self::spec_utf_body(old(self)@));
        }
        match utf8_to_string(body.to_vec()) {
            Some(s) => {
                self.drop_front(2 + n);
                Some(s)
            },
            None => None,
        }
    }
}

} // verus!
