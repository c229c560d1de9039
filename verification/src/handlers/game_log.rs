use vstd::prelude::*;

use crate::bytearray::ByteArray;

verus! {

/// Parses a client-side error report: the token pair it concerns, the
/// legacy token pair, and the message. A report for the null pair carries
/// nothing and is dropped, as is a malformed one.
pub fn handle(data: &mut ByteArray) -> (r: Option<(u8, u8, u8, u8, String)>)
    ensures
        match r {
            Some(v) => {
                &&& old(data)@.len() >= 4
                &&& v.0 == old(data)@[0]
                &&& v.1 == old(data)@[1]
                &&& v.2 == old(data)@[2]
                &&& v.3 == old(data)@[3]
                &&& !(v.0 == 0 && v.1 == 0)
            },
            None => true,
        },
{
    if data.len() < 4 {
        return None;
    }
    let c = data.read_u8();
    let cc = data.read_u8();
    let old_c = data.read_u8();
    let old_cc = data.read_u8();
    let error = match data.try_read_utf() {
        Some(s) => s,
        None => {
            return None;
        },
    };
    if c == 0 && cc == 0 {
        return None;
    }
    Some((c, cc, old_c, old_cc, error))
}

} // verus!
