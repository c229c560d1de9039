use vstd::prelude::*;
use vstd::string::StrSliceExecFns;
use vstd::utf8::{encode_scalar, encode_utf8};

verus! {

/// Character-for-character equality of two string slices.
pub fn str_eq(a: &str, b: &str) -> (r: bool)
    ensures
        r <==> a@ == b@,
{
    let la = a.unicode_len();
    let lb = b.unicode_len();
    if la != lb {
        return false;
    }
    let mut i: usize = 0;
    while i < la
        invariant
            i <= la,
            la == a@.len(),
            lb == b@.len(),
            la == lb,
            forall|j: int| 0 <= j < i ==> a@[j] == b@[j],
        decreases la - i,
    {
        if a.get_char(i) != b.get_char(i) {
            return false;
        }
        i = i + 1;
    }
    proof {
        assert(a@ =~= b@);
    }
    true
}

pub open spec fn spec_starts_with(s: Seq<char>, prefix: Seq<char>) -> bool {
    prefix.len() <= s.len() && s.take(prefix.len() as int) == prefix
}

/// Whether `s` begins with the characters of `prefix`.
pub fn starts_with_str(s: &str, prefix: &str) -> (r: bool)
    ensures
        r <==> spec_starts_with(s@, prefix@),
{
    let lp = prefix.unicode_len();
    let ls = s.unicode_len();
    if lp > ls {
        return false;
    }
    let mut i: usize = 0;
    while i < lp
        invariant
            i <= lp <= ls,
            lp == prefix@.len(),
            ls == s@.len(),
            forall|j: int| 0 <= j < i ==> s@[j] == prefix@[j],
        decreases lp - i,
    {
        if s.get_char(i) != prefix.get_char(i) {
            proof {
                assert(s@.take(prefix@.len() as int)[i as int] != prefix@[i as int]);
            }
            return false;
        }
        i = i + 1;
    }
    proof {
        assert(s@.take(prefix@.len() as int) =~= prefix@);
    }
    true
}

/// Whether the characters of `sub` occur contiguously anywhere in `s`.
pub open spec fn spec_contains_str(s: Seq<char>, sub: Seq<char>) -> bool {
    exists|i: int|
        0 <= i && i + sub.len() <= s.len() && #[trigger] s.subrange(i, i + sub.len() as int) == sub
}

pub fn contains_str(s: &str, sub: &str) -> (r: bool)
    ensures
        r <==> spec_contains_str(s@, sub@),
{
    let ls = s.unicode_len();
    let lsub = sub.unicode_len();
    if lsub > ls {
        return false;
    }
    let mut i: usize = 0;
    while i <= ls - lsub
        invariant
            lsub <= ls,
            i <= ls - lsub + 1,
            ls == s@.len(),
            lsub == sub@.len(),
            forall|k: int|
                0 <= k < i ==> #[trigger] s@.subrange(k, k + sub@.len() as int) != sub@,
        decreases ls + 1 - i,
    {
        let mut j: usize = 0;
        let mut matched = true;
        while j < lsub
            invariant
                i + lsub <= ls,
                ls == s@.len(),
                lsub == sub@.len(),
                j <= lsub,
                matched <==> (forall|k: int| 0 <= k < j ==> s@[i + k] == sub@[k]),
            decreases lsub - j,
        {
            if s.get_char(i + j) != sub.get_char(j) {
                matched = false;
                proof {
                    assert(s@[i + j as int] != sub@[j as int]);
                }
                j = lsub;
            } else {
                proof {
                    if matched {
                        assert(forall|k: int| 0 <= k < j + 1 ==> s@[i + k] == sub@[k]);
                    }
                }
                j = j + 1;
            }
        }
        if matched {
            proof {
                assert(s@.subrange(i as int, i + sub@.len() as int) =~= sub@);
            }
            return true;
        }
        proof {
            assert(exists|k: int| 0 <= k < sub@.len() && s@[i + k] != sub@[k]);
            let k = choose|k: int| 0 <= k < sub@.len() && s@[i + k] != sub@[k];
            assert(s@.subrange(i as int, i + sub@.len() as int)[k] != sub@[k]);
        }
        i = i + 1;
    }
    false
}

/// The text that `str::to_lowercase` returns: a function of the characters
/// alone, per the Unicode case tables.
pub uninterp spec fn lower_of(s: Seq<char>) -> Seq<char>;

/// The text that `str::to_uppercase` returns: a function of the characters
/// alone, per the Unicode case tables.
pub uninterp spec fn upper_of(s: Seq<char>) -> Seq<char>;

/// Relies on `str::to_lowercase`: the result depends on the characters alone.
#[verifier::external_body]
pub(crate) fn to_lowercase(s: &str) -> (r: String)
    ensures
        r@ == lower_of(s@),
        s@.len() == 0 ==> r@.len() == 0,
{
    s.to_lowercase()
}

/// Relies on `str::to_uppercase`: the result depends on the characters alone.
#[verifier::external_body]
pub(crate) fn to_uppercase(s: &str) -> (r: String)
    ensures
        r@ == upper_of(s@),
        s@.len() == 0 ==> r@.len() == 0,
{
    s.to_uppercase()
}

/// `s` with every `<` replaced by the four characters `&lt;`.
pub open spec fn spec_replace_lt(s: Seq<char>) -> Seq<char>
    decreases s.len(),
{
    if s.len() == 0 {
        Seq::empty()
    } else if s[0] == '<' {
        seq!['&', 'l', 't', ';'] + spec_replace_lt(s.skip(1))
    } else {
        seq![s[0]] + spec_replace_lt(s.skip(1))
    }
}

proof fn lemma_replace_lt_push(t: Seq<char>, c: char)
    ensures
        spec_replace_lt(t.push(c)) == spec_replace_lt(t) + (if c == '<' {
            seq!['&', 'l', 't', ';']
        } else {
            seq![c]
        }),
    decreases t.len(),
{
    let mapped: Seq<char> = if c == '<' {
        seq!['&', 'l', 't', ';']
    } else {
        seq![c]
    };
    reveal_with_fuel(spec_replace_lt, 3);
    if t.len() == 0 {
        assert(t.push(c)[0] == c);
        assert(t.push(c).skip(1) =~= Seq::<char>::empty());
        assert(spec_replace_lt(t.push(c)) =~= spec_replace_lt(t) + mapped);
    } else {
        assert(t.push(c)[0] == t[0]);
        assert(t.push(c).skip(1) =~= t.skip(1).push(c));
        lemma_replace_lt_push(t.skip(1), c);
        if t[0] == '<' {
            assert(seq!['&', 'l', 't', ';'] + (spec_replace_lt(t.skip(1)) + mapped) =~= (seq![
                '&',
                'l',
                't',
                ';',
            ] + spec_replace_lt(t.skip(1))) + mapped);
        } else {
            assert(seq![t[0]] + (spec_replace_lt(t.skip(1)) + mapped) =~= (seq![t[0]]
                + spec_replace_lt(t.skip(1))) + mapped);
        }
    }
}

/// Escaping multiplies the length by at most four.
pub proof fn lemma_replace_lt_len(s: Seq<char>)
    ensures
        spec_replace_lt(s).len() <= 4 * s.len(),
    decreases s.len(),
{
    if s.len() > 0 {
        lemma_replace_lt_len(s.skip(1));
    }
}

/// Escapes markup openers in room names: every `<` becomes `&lt;`.
pub fn replace_lt(s: &str) -> (r: String)
    ensures
        r@ == spec_replace_lt(s@),
{
    let ls = s.unicode_len();
    let mut out = String::new();
    let mut i: usize = 0;
    proof {
        assert(s@.take(0) =~= Seq::<char>::empty());
    }
    while i < ls
        invariant
            i <= ls,
            ls == s@.len(),
            out@ == spec_replace_lt(s@.take(i as int)),
        decreases ls - i,
    {
        let c = s.get_char(i);
        if c == '<' {
            out.append("&lt;");
            proof {
                reveal_strlit("&lt;");
                assert("&lt;"@ =~= seq!['&', 'l', 't', ';']);
            }
        } else {
            let piece = s.substring_char(i, i + 1);
            out.append(piece);
            proof {
                assert(piece@ =~= seq![s@[i as int]]);
            }
        }
        proof {
            assert(s@.take(i + 1) =~= s@.take(i as int).push(s@[i as int]));
            lemma_replace_lt_push(s@.take(i as int), s@[i as int]);
        }
        i = i + 1;
    }
    proof {
        assert(s@.take(ls as int) =~= s@);
    }
    out
}

pub open spec fn is_dec_digit(c: char) -> bool {
    48 <= c as u32 <= 57
}

pub open spec fn dec_val(c: char) -> int {
    c as u32 - 48
}

pub open spec fn all_dec_digits(s: Seq<char>) -> bool {
    forall|i: int| 0 <= i < s.len() ==> is_dec_digit(#[trigger] s[i])
}

/// Value of a decimal digit string.
pub open spec fn spec_dec_value(s: Seq<char>) -> int
    decreases s.len(),
{
    if s.len() == 0 {
        0
    } else {
        spec_dec_value(s.drop_last()) * 10 + dec_val(s.last())
    }
}

proof fn lemma_dec_value_nonneg(s: Seq<char>)
    requires
        all_dec_digits(s),
    ensures
        spec_dec_value(s) >= 0,
    decreases s.len(),
{
    if s.len() > 0 {
        assert(all_dec_digits(s.drop_last()));
        lemma_dec_value_nonneg(s.drop_last());
        assert(spec_dec_value(s.drop_last()) * 10 >= 0) by (nonlinear_arith)
            requires
                spec_dec_value(s.drop_last()) >= 0,
        ;
    }
}

/// What `str::parse::<i32>` accepts: an optional sign, then only decimal
/// digits, with the value in range.
pub open spec fn spec_parse_i32(s: Seq<char>) -> Option<int> {
    let neg = s.len() > 0 && s[0] == '-';
    let digits = if s.len() > 0 && (s[0] == '-' || s[0] == '+') {
        s.skip(1)
    } else {
        s
    };
    if digits.len() == 0 || !all_dec_digits(digits) {
        None
    } else {
        let v = if neg {
            -spec_dec_value(digits)
        } else {
            spec_dec_value(digits)
        };
        if i32::MIN <= v <= i32::MAX {
            Some(v)
        } else {
            None
        }
    }
}

/// Parses the characters `from..to` of `s` as a signed decimal integer.
fn parse_i32_range(s: &str, from: usize, to: usize) -> (r: Option<i32>)
    requires
        from <= to <= s@.len(),
    ensures
        match spec_parse_i32(s@.subrange(from as int, to as int)) {
            Some(v) => r == Some(v as i32),
            None => r is None,
        },
{
    let ghost chars = s@.subrange(from as int, to as int);
    if from == to {
        return None;
    }
    proof {
        assert(chars[0] == s@[from as int]);
    }
    let first = s.get_char(from);
    let neg = first == '-';
    let start = if first == '-' || first == '+' {
        from + 1
    } else {
        from
    };
    let ghost digits = s@.subrange(start as int, to as int);
    proof {
        if start > from {
            assert(chars.skip(1) =~= digits);
        }
    }
    if start == to {
        return None;
    }
    let mut acc: u64 = 0;
    let mut over = false;
    let mut i: usize = start;
    proof {
        assert(digits.take(0) =~= Seq::<char>::empty());
    }
    while i < to
        invariant
            from <= start <= i <= to <= s@.len(),
            chars == s@.subrange(from as int, to as int),
            digits == s@.subrange(start as int, to as int),
            digits == (if chars.len() > 0 && (chars[0] == '-' || chars[0] == '+') {
                chars.skip(1)
            } else {
                chars
            }),
            neg == (chars.len() > 0 && chars[0] == '-'),
            digits.len() > 0,
            all_dec_digits(digits.take(i - start)),
            !over ==> acc == spec_dec_value(digits.take(i - start)) && acc <= 0x80000000,
            over ==> spec_dec_value(digits.take(i - start)) > 0x80000000,
        decreases to - i,
    {
        let cu = s.get_char(i) as u32;
        if !(cu >= 48 && cu <= 57) {
            proof {
                assert(digits[i - start] == s@[i as int]);
                assert(!is_dec_digit(digits[i - start]));
                assert(!all_dec_digits(digits));
            }
            return None;
        }
        let d = (cu - 48) as u64;
        let ghost prefix = digits.take(i - start);
        proof {
            assert(digits.take(i - start + 1) =~= prefix.push(s@[i as int]));
            assert(prefix.push(s@[i as int]).drop_last() =~= prefix);
            lemma_dec_value_nonneg(prefix);
        }
        if !over {
            let acc2 = acc * 10 + d;
            if acc2 > 0x80000000 {
                over = true;
            } else {
                acc = acc2;
            }
        } else {
            proof {
                let v = spec_dec_value(prefix);
                assert(v * 10 + dec_val(s@[i as int]) > 0x80000000) by (nonlinear_arith)
                    requires
                        v > 0x80000000,
                        dec_val(s@[i as int]) >= 0,
                ;
            }
        }
        i = i + 1;
    }
    proof {
        assert(digits.take(to - start) =~= digits);
    }
    if over {
        return None;
    }
    if neg {
        if acc == 0x80000000 {
            Some(i32::MIN)
        } else {
            Some(-((acc as u32) as i32))
        }
    } else {
        if acc >= 0x80000000 {
            None
        } else {
            Some((acc as u32) as i32)
        }
    }
}

/// Parses a whole string slice as `str::parse::<i32>` would.
pub fn parse_i32(s: &str) -> (r: Option<i32>)
    ensures
        match spec_parse_i32(s@) {
            Some(v) => r == Some(v as i32),
            None => r is None,
        },
{
    let l = s.unicode_len();
    let r = parse_i32_range(s, 0, l);
    proof {
        assert(s@.subrange(0, s@.len() as int) =~= s@);
    }
    r
}

/// UTF-8 encoding distributes over concatenation.
pub proof fn lemma_encode_utf8_concat(a: Seq<char>, b: Seq<char>)
    ensures
        encode_utf8(a + b) == encode_utf8(a) + encode_utf8(b),
    decreases a.len(),
{
    if a.len() == 0 {
        assert(a + b =~= b);
        assert(encode_utf8(a) + encode_utf8(b) =~= encode_utf8(b));
    } else {
        assert((a + b)[0] == a[0]);
        assert((a + b).drop_first() =~= a.drop_first() + b);
        lemma_encode_utf8_concat(a.drop_first(), b);
        assert(encode_scalar(a[0] as u32) + (encode_utf8(a.drop_first()) + encode_utf8(b)) =~= (
        encode_scalar(a[0] as u32) + encode_utf8(a.drop_first())) + encode_utf8(b));
    }
}

/// Every character takes between one and four bytes of UTF-8.
pub proof fn lemma_encode_utf8_len(s: Seq<char>)
    ensures
        s.len() <= encode_utf8(s).len() <= 4 * s.len(),
    decreases s.len(),
{
    if s.len() > 0 {
        lemma_encode_utf8_len(s.drop_first());
    }
}

pub open spec fn is_hex_digit(c: char) -> bool {
    48 <= c as u32 <= 57 || 97 <= c as u32 <= 102 || 65 <= c as u32 <= 70
}

pub open spec fn hex_val(c: char) -> int {
    if 48 <= c as u32 <= 57 {
        c as u32 - 48
    } else if 97 <= c as u32 <= 102 {
        c as u32 - 87
    } else {
        c as u32 - 55
    }
}

pub open spec fn all_hex_digits(s: Seq<char>) -> bool {
    forall|i: int| 0 <= i < s.len() ==> is_hex_digit(#[trigger] s[i])
}

/// Value of a hexadecimal digit string.
pub open spec fn spec_hex_value(s: Seq<char>) -> int
    decreases s.len(),
{
    if s.len() == 0 {
        0
    } else {
        spec_hex_value(s.drop_last()) * 16 + hex_val(s.last())
    }
}

proof fn lemma_hex_value_nonneg(s: Seq<char>)
    requires
        all_hex_digits(s),
    ensures
        spec_hex_value(s) >= 0,
    decreases s.len(),
{
    if s.len() > 0 {
        assert(all_hex_digits(s.drop_last()));
        lemma_hex_value_nonneg(s.drop_last());
        assert(spec_hex_value(s.drop_last()) * 16 >= 0) by (nonlinear_arith)
            requires
                spec_hex_value(s.drop_last()) >= 0,
        ;
    }
}

/// What a base-16 unsigned parse accepts: at least one digit, only hex
/// digits, and a value that fits in 32 bits.
pub open spec fn spec_parse_hex_u32(s: Seq<char>) -> Option<int> {
    if s.len() == 0 || !all_hex_digits(s) {
        None
    } else if spec_hex_value(s) <= 0xffffffff {
        Some(spec_hex_value(s))
    } else {
        None
    }
}

/// Parses a hexadecimal string into a `u32`.
pub fn parse_hex_u32(s: &str) -> (r: Option<u32>)
    ensures
        match spec_parse_hex_u32(s@) {
            Some(v) => r == Some(v as u32),
            None => r is None,
        },
{
    let l = s.unicode_len();
    if l == 0 {
        return None;
    }
    let mut acc: u64 = 0;
    let mut over = false;
    let mut i: usize = 0;
    proof {
        assert(s@.take(0) =~= Seq::<char>::empty());
    }
    while i < l
        invariant
            i <= l,
            l == s@.len(),
            all_hex_digits(s@.take(i as int)),
            !over ==> acc == spec_hex_value(s@.take(i as int)) && acc <= 0xffffffff,
            over ==> spec_hex_value(s@.take(i as int)) > 0xffffffff,
        decreases l - i,
    {
        let cu = s.get_char(i) as u32;
        let d: u64 = if cu >= 48 && cu <= 57 {
            (cu - 48) as u64
        } else if cu >= 97 && cu <= 102 {
            (cu - 87) as u64
        } else if cu >= 65 && cu <= 70 {
            (cu - 55) as u64
        } else {
            proof {
                assert(!is_hex_digit(s@[i as int]));
            }
            return None;
        };
        let ghost prefix = s@.take(i as int);
        proof {
            assert(s@.take(i + 1) =~= prefix.push(s@[i as int]));
            assert(prefix.push(s@[i as int]).drop_last() =~= prefix);
            lemma_hex_value_nonneg(prefix);
            if over {
                let v = spec_hex_value(prefix);
                assert(v * 16 + hex_val(s@[i as int]) > 0xffffffff) by (nonlinear_arith)
                    requires
                        v > 0xffffffff,
                        hex_val(s@[i as int]) >= 0,
                ;
            }
        }
        if !over {
            let acc2 = acc * 16 + d;
            if acc2 > 0xffffffff {
                over = true;
            } else {
                acc = acc2;
            }
        }
        i = i + 1;
    }
    proof {
        assert(s@.take(l as int) =~= s@);
    }
    if over {
        None
    } else {
        Some(acc as u32)
    }
}

pub open spec fn is_ascii_ws(c: char) -> bool {
    c == ' ' || c == '\t' || c == '\n' || c == '\r'
}

fn ws_at(s: &str, i: usize) -> (r: bool)
    requires
        i < s@.len(),
    ensures
        r == is_ascii_ws(s@[i as int]),
{
    let c = s.get_char(i);
    c == ' ' || c == '\t' || c == '\n' || c == '\r'
}

/// `s` with leading and trailing ASCII whitespace removed.
pub open spec fn spec_trim(s: Seq<char>) -> Seq<char>
    decreases s.len(),
{
    if s.len() == 0 {
        s
    } else if is_ascii_ws(s[0]) {
        spec_trim(s.skip(1))
    } else if is_ascii_ws(s.last()) {
        spec_trim(s.drop_last())
    } else {
        s
    }
}

proof fn lemma_trim_range(s: Seq<char>, a: int, b: int)
    requires
        0 <= a <= b <= s.len(),
        forall|i: int| 0 <= i < a ==> is_ascii_ws(#[trigger] s[i]),
        forall|i: int| b <= i < s.len() ==> is_ascii_ws(#[trigger] s[i]),
        b > a ==> !is_ascii_ws(s[a]) && !is_ascii_ws(s[b - 1]),
    ensures
        spec_trim(s) == s.subrange(a, b),
    decreases s.len(),
{
    if s.len() == 0 {
        assert(s.subrange(a, b) =~= s);
    } else if a > 0 {
        assert(s.skip(1).subrange(a - 1, b - 1) =~= s.subrange(a, b));
        lemma_trim_range(s.skip(1), a - 1, b - 1);
    } else if b == s.len() && b > a {
        assert(s.subrange(a, b) =~= s);
    } else if b < s.len() {
        assert(is_ascii_ws(s.last()));
        if b == 0 {
            assert(is_ascii_ws(s[0]));
            assert(s.skip(1).subrange(0, 0) =~= s.subrange(0, 0));
            lemma_trim_range(s.skip(1), 0, 0);
        } else {
            assert(s.drop_last().subrange(a, b) =~= s.subrange(a, b));
            lemma_trim_range(s.drop_last(), a, b);
        }
    }
}

/// Whether `s`, with surrounding ASCII whitespace ignored, parses as an
/// `i32` the way `str::parse` would accept it.
pub fn is_numeric_name(s: &str) -> (r: bool)
    ensures
        r <==> spec_parse_i32(spec_trim(s@)) is Some,
{
    let l = s.unicode_len();
    let mut a: usize = 0;
    while a < l && ws_at(s, a)
        invariant
            a <= l,
            l == s@.len(),
            forall|i: int| 0 <= i < a ==> is_ascii_ws(#[trigger] s@[i]),
        decreases l - a,
    {
        a = a + 1;
    }
    let mut b: usize = l;
    while b > a && ws_at(s, b - 1)
        invariant
            a <= b <= l,
            l == s@.len(),
            forall|i: int| b <= i < l ==> is_ascii_ws(#[trigger] s@[i]),
        decreases b,
    {
        b = b - 1;
    }
    proof {
        lemma_trim_range(s@, a as int, b as int);
    }
    parse_i32_range(s, a, b).is_some()
}

} // verus!
