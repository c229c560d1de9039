use vstd::arithmetic::div_mod::lemma_fundamental_div_mod;
use vstd::prelude::*;

use crate::bytearray::ByteArray;

verus! {

/// Little-endian base-128 image of `n`: seven data bits per group, the high
/// bit set on every group but the last.
pub open spec fn varint(n: nat) -> Seq<u8>
    decreases n,
{
    if n < 128 {
        seq![n as u8]
    } else {
        seq![(n % 128 + 128) as u8] + varint(n / 128)
    }
}

/// Number of groups in the base-128 image of `n`.
pub open spec fn varint_len(n: nat) -> nat
    decreases n,
{
    if n < 128 {
        1
    } else {
        1 + varint_len(n / 128)
    }
}

/// `128^k`: the least value that does not fit in `k` groups.
pub open spec fn pow128(k: nat) -> nat
    decreases k,
{
    if k == 0 {
        1
    } else {
        128 * pow128((k - 1) as nat)
    }
}

/// Value and group count read by a base-128 decode of at most `limit` groups,
/// or `None` when the bytes run out or the groups do.
pub open spec fn spec_varint_at(b: Seq<u8>, limit: nat) -> Option<(nat, nat)>
    decreases limit,
{
    if limit == 0 || b.len() == 0 {
        None
    } else if b[0] < 128 {
        Some((b[0] as nat, 1nat))
    } else {
        match spec_varint_at(b.skip(1), (limit - 1) as nat) {
            None => None,
            Some((v, used)) => Some((((b[0] - 128) + 128 * v) as nat, (used + 1) as nat)),
        }
    }
}

proof fn lemma_pow128_values()
    ensures
        pow128(0) == 1,
        pow128(1) == 128,
        pow128(2) == 0x4000,
        pow128(3) == 0x200000,
        pow128(4) == 0x10000000,
        pow128(5) == 0x800000000,
{
    reveal_with_fuel(pow128, 6);
}

proof fn lemma_pow128_ge(k: nat)
    requires
        k >= 1,
    ensures
        pow128(k) >= 128,
    decreases k,
{
    reveal_with_fuel(pow128, 2);
    if k > 1 {
        lemma_pow128_ge((k - 1) as nat);
        assert(pow128(k) == 128 * pow128((k - 1) as nat));
        assert(128 * pow128((k - 1) as nat) >= 128) by (nonlinear_arith)
            requires
                pow128((k - 1) as nat) >= 1,
        ;
    }
}

/// A decoded value always fits in the groups that were read.
proof fn lemma_varint_at_bound(b: Seq<u8>, limit: nat)
    ensures
        match spec_varint_at(b, limit) {
            Some((v, used)) => v < pow128(limit) && 1 <= used <= limit && used <= b.len(),
            None => true,
        },
    decreases limit,
{
    if limit != 0 && b.len() != 0 {
        if b[0] < 128 {
            lemma_pow128_ge(limit);
        } else {
            lemma_varint_at_bound(b.skip(1), (limit - 1) as nat);
            match spec_varint_at(b.skip(1), (limit - 1) as nat) {
                None => {},
                Some((v, used)) => {
                    assert((b[0] - 128) + 128 * v < 128 * (v + 1)) by (nonlinear_arith)
                        requires
                            b[0] < 256,
                    ;
                    assert(128 * (v + 1) <= 128 * pow128((limit - 1) as nat)) by (nonlinear_arith)
                        requires
                            v + 1 <= pow128((limit - 1) as nat),
                    ;
                },
            }
        }
    }
}

proof fn lemma_varint_at_prefix(n: nat, rest: Seq<u8>, limit: nat)
    requires
        varint_len(n) <= limit,
    ensures
        spec_varint_at(varint(n) + rest, limit) == Some((n, varint_len(n))),
    decreases n,
{
    let b = varint(n) + rest;
    if n < 128 {
        assert(b[0] == n as u8);
    } else {
        assert(b[0] == (n % 128 + 128) as u8);
        assert(b.skip(1) =~= varint(n / 128) + rest);
        lemma_varint_at_prefix(n / 128, rest, (limit - 1) as nat);
        lemma_fundamental_div_mod(n as int, 128);
    }
}

proof fn lemma_varint_len_bound(n: nat, k: nat)
    requires
        k >= 1,
        n < pow128(k),
    ensures
        varint_len(n) <= k,
    decreases k,
{
    if n >= 128 {
        assert(n / 128 < pow128((k - 1) as nat)) by {
            lemma_fundamental_div_mod(n as int, 128);
            assert(n < 128 * pow128((k - 1) as nat));
            assert(128 * (n / 128) <= n) by (nonlinear_arith)
                requires
                    n >= 0,
            ;
            assert(128 * (n / 128) < 128 * pow128((k - 1) as nat));
            assert(n / 128 < pow128((k - 1) as nat)) by (nonlinear_arith)
                requires
                    128 * (n / 128) < 128 * pow128((k - 1) as nat),
            ;
        }
        lemma_varint_len_bound(n / 128, (k - 1) as nat);
    }
}

#[verifier::rlimit(50)]
proof fn lemma_varint_shape(n: nat)
    ensures
        varint(n).len() == varint_len(n),
        n < pow128(varint_len(n)),
        varint_len(n) > 1 ==> pow128((varint_len(n) - 1) as nat) <= n,
    decreases n,
{
    reveal_with_fuel(pow128, 3);
    if n < 128 {
    } else {
        lemma_varint_shape(n / 128);
        lemma_fundamental_div_mod(n as int, 128);
        let lr = varint_len(n / 128);
        assert(n / 128 < pow128(lr));
        assert(n == 128 * (n / 128) + n % 128);
        assert(128 * (n / 128) + n % 128 < 128 * pow128(lr)) by (nonlinear_arith)
            requires
                n / 128 < pow128(lr),
                0 <= n % 128 < 128,
        ;
        assert(pow128(lr) <= 128 * (n / 128)) by (nonlinear_arith)
            requires
                lr >= 1 ==> pow128((lr - 1) as nat) <= n / 128,
                lr == 0 ==> pow128(lr) == 1,
                pow128(lr) == 128 * pow128((lr - 1) as nat) || lr == 0,
                1 <= n / 128,
                1 <= pow128(lr),
        ;
    }
}

/// Law: for every byte count below `2^28`, decoding the frame-length varint
/// gives back exactly the value it was encoded from, and the encoding uses
/// the least number of groups that can hold the value.
pub proof fn lemma_varint_round_trip(n: nat)
    requires
        n < 0x10000000,
    ensures
        spec_varint_at(varint(n), 5) == Some((n, varint_len(n))),
        varint(n).len() == varint_len(n),
        n < pow128(varint_len(n)),
        varint_len(n) > 1 ==> pow128((varint_len(n) - 1) as nat) <= n,
{
    lemma_pow128_values();
    lemma_varint_len_bound(n, 4);
    assert(varint(n) + Seq::<u8>::empty() =~= varint(n));
    lemma_varint_at_prefix(n, Seq::<u8>::empty(), 5);
    lemma_varint_shape(n);
}

/// Appends the base-128 image of `n` to `b`.
pub fn write_varint(b: ByteArray, n: u64) -> (r: ByteArray)
    ensures
        r@ == b@ + varint(n as nat),
{
    let mut out = b;
    let mut left = n;
    let ghost mut prefix: Seq<u8> = Seq::empty();
    proof {
        assert(out@ =~= b@ + prefix);
        assert(prefix + varint(left as nat) =~= varint(n as nat));
    }
    while left >= 128
        invariant
            out@ == b@ + prefix,
            prefix + varint(left as nat) == varint(n as nat),
        decreases left,
    {
        let group = ((left % 128) + 128) as u8;
        out = out.write_u8(group);
        proof {
            let before = prefix;
            prefix = prefix + seq![group];
            assert((b@ + before) + seq![group] =~= b@ + prefix);
            assert(varint(left as nat) =~= seq![group] + varint((left / 128) as nat));
            assert(prefix + varint((left / 128) as nat) =~= before + varint(left as nat));
        }
        left = left / 128;
    }
    let r = out.write_u8(left as u8);
    proof {
        assert(varint(left as nat) =~= seq![left as u8]);
        assert((b@ + prefix) + seq![left as u8] =~= b@ + varint(n as nat));
    }
    r
}

/// Consumes a base-128 length of at most five groups from the front of
/// `data`; on a malformed or truncated prefix the buffer is left unchanged.
pub fn read_varint(data: &mut ByteArray) -> (r: Option<u64>)
    ensures
        match spec_varint_at(old(data)@, 5) {
            Some((v, used)) => r == Some(v as u64) && final(data)@ == old(data)@.skip(used as int),
            None => r is None && final(data)@ == old(data)@,
        },
{
    read_varint_limited(data, 5)
}

fn read_varint_limited(data: &mut ByteArray, limit: u8) -> (r: Option<u64>)
    requires
        limit <= 5,
    ensures
        match spec_varint_at(old(data)@, limit as nat) {
            Some((v, used)) => r == Some(v as u64) && final(data)@ == old(data)@.skip(used as int),
            None => r is None && final(data)@ == old(data)@,
        },
    decreases limit,
{
    proof {
        lemma_varint_at_bound(old(data)@, limit as nat);
        lemma_pow128_values();
    }
    if limit == 0 || data.len() == 0 {
        return None;
    }
    let byte = data.get(0);
    if byte < 128 {
        data.drop_front(1);
        return Some(byte as u64);
    }
    let mut rest = data.clone();
    rest.drop_front(1);
    proof {
        lemma_varint_at_bound(rest@, (limit - 1) as nat);
    }
    match read_varint_limited(&mut rest, limit - 1) {
        None => None,
        Some(v) => {
            let value = ((byte - 128) as u64) + 128 * v;
            proof {
                assert(old(data)@.skip(1).skip(
                    spec_varint_at(old(data)@.skip(1), (limit - 1) as nat).unwrap().1 as int,
                ) =~= old(data)@.skip(
                    1 + spec_varint_at(old(data)@.skip(1), (limit - 1) as nat).unwrap().1 as int,
                ));
            }
            *data = rest;
            Some(value)
        },
    }
}

/// Whether the bytes of `needle` occur contiguously anywhere in `hay`.
pub open spec fn spec_contains_bytes(hay: Seq<u8>, needle: Seq<u8>) -> bool {
    exists|i: int|
        0 <= i && i + needle.len() <= hay.len() && #[trigger] hay.subrange(
            i,
            i + needle.len() as int,
        ) == needle
}

pub fn contains_bytes(hay: &[u8], needle: &[u8]) -> (r: bool)
    ensures
        r <==> spec_contains_bytes(hay@, needle@),
{
    let lh = hay.len();
    let ln = needle.len();
    if ln > lh {
        return false;
    }
    let mut i: usize = 0;
    while i <= lh - ln
        invariant
            ln <= lh,
            i <= lh - ln + 1,
            lh == hay@.len(),
            ln == needle@.len(),
            forall|k: int|
                0 <= k < i ==> #[trigger] hay@.subrange(k, k + needle@.len() as int) != needle@,
        decreases lh + 1 - i,
    {
        let mut j: usize = 0;
        let mut matched = true;
        while j < ln
            invariant
                i + ln <= lh,
                lh == hay@.len(),
                ln == needle@.len(),
                j <= ln,
                matched <==> (forall|k: int| 0 <= k < j ==> hay@[i + k] == needle@[k]),
            decreases ln - j,
        {
            if hay[i + j] != needle[j] {
                matched = false;
                proof {
                    assert(hay@[i + j as int] != needle@[j as int]);
                }
                j = ln;
            } else {
                proof {
                    if matched {
                        assert(forall|k: int| 0 <= k < j + 1 ==> hay@[i + k] == needle@[k]);
                    }
                }
                j = j + 1;
            }
        }
        if matched {
            proof {
                assert(hay@.subrange(i as int, i + needle@.len() as int) =~= needle@);
            }
            return true;
        }
        proof {
            assert(exists|k: int| 0 <= k < needle@.len() && hay@[i + k] != needle@[k]);
            let k = choose|k: int| 0 <= k < needle@.len() && hay@[i + k] != needle@[k];
            assert(hay@.subrange(i as int, i + needle@.len() as int)[k] != needle@[k]);
        }
        i = i + 1;
    }
    false
}

/// The frame image on the wire: the varint of one less than the byte count
/// that follows it, the token pair, then the payload.
pub open spec fn spec_frame(c: u8, cc: u8, payload: Seq<u8>) -> Seq<u8> {
    varint((payload.len() + 1) as nat) + seq![c, cc] + payload
}

/// Builds one outbound frame around a token pair and its payload.
pub fn build_frame(c: u8, cc: u8, payload: &ByteArray) -> (r: ByteArray)
    requires
        payload@.len() + 1 <= u64::MAX,
    ensures
        r@ == spec_frame(c, cc, payload@),
{
    let size = (payload.len() as u64) + 1;
    let b = write_varint(ByteArray::new(), size);
    let r = b.write_u8(c).write_u8(cc).write_bytes(payload.as_bytes());
    proof {
        assert(Seq::<u8>::empty() + varint(size as nat) =~= varint(size as nat));
        assert(r@ =~= spec_frame(c, cc, payload@));
    }
    r
}

/// The first frame carried by an inbound chunk: the bytes after the varint,
/// clamped to what the chunk actually holds; `None` when the varint itself is
/// malformed or the chunk is empty.
pub open spec fn spec_first_frame(b: Seq<u8>) -> Option<Seq<u8>> {
    match spec_varint_at(b, 5) {
        None => None,
        Some((v, used)) => {
            let avail = b.len() - used;
            let total: int = if v + 1 > avail {
                avail as int
            } else {
                v + 1 as int
            };
            Some(b.skip(used as int).take(total as int))
        },
    }
}

/// Splits the first frame off an inbound chunk: reads the varint, adds one to
/// get the byte count, and clamps that count to the bytes actually present so
/// a truncated chunk is never read past its end.
pub fn parse_frame(data: &mut ByteArray) -> (r: Option<ByteArray>)
    ensures
        match spec_first_frame(old(data)@) {
            Some(f) => r is Some && r.unwrap()@ == f,
            None => r is None,
        },
{
    proof {
        lemma_varint_at_bound(old(data)@, 5);
        lemma_pow128_values();
    }
    let size = match read_varint(data) {
        Some(v) => v,
        None => {
            return None;
        },
    };
    let mut total = if size >= usize::MAX as u64 {
        usize::MAX
    } else {
        (size + 1) as usize
    };
    if total > data.len() {
        total = data.len();
    }
    let frame = data.read(total);
    proof {
        assert(frame@ =~= spec_first_frame(old(data)@).unwrap());
    }
    Some(frame)
}

} // verus!
