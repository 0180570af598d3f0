//! Hex encoding of identifiers.
//!
//! Upload ids travel as the lowercase hex of a 32-byte uuid; the encoding
//! itself is done by an outside crate, against the exact specification
//! written here.

use vstd::prelude::*;
use vstd::string::StringExecFns;
use crate::Uuid;

verus! {

/// The character encoding the low four bits of `v`: `0`-`9` then `a`-`f`.
pub open spec fn hex_digit(v: u8) -> char
    recommends
        v < 16,
{
    if v < 10 {
        ((v + 0x30) as u8) as char
    } else {
        ((v + 0x57) as u8) as char
    }
}

/// Lowercase hex of a byte string: two digits per byte, high nibble first.
pub open spec fn hex_of(b: Seq<u8>) -> Seq<char>
    decreases b.len(),
{
    if b.len() == 0 {
        Seq::empty()
    } else {
        seq![hex_digit(b[0] / 16), hex_digit(b[0] % 16)] + hex_of(b.skip(1))
    }
}

/// A hex digit of either case.
pub open spec fn is_hex_digit(c: char) -> bool {
    (0x30 <= c as int && c as int <= 0x39) || (0x61 <= c as int && c as int <= 0x66) || (0x41
        <= c as int && c as int <= 0x46)
}

/// The value of one hex digit.
pub open spec fn hex_val(c: char) -> u8
    recommends
        is_hex_digit(c),
{
    if 0x30 <= c as int && c as int <= 0x39 {
        (c as int - 0x30) as u8
    } else if 0x61 <= c as int && c as int <= 0x66 {
        (c as int - 0x57) as u8
    } else {
        (c as int - 0x37) as u8
    }
}

/// Every character is a hex digit.
pub open spec fn all_hex(s: Seq<char>) -> bool {
    forall|i: int| 0 <= i < s.len() ==> is_hex_digit(s[i])
}

/// The bytes denoted by an even-length string of hex digits.
pub open spec fn bytes_of_hex(s: Seq<char>) -> Seq<u8>
    decreases s.len(),
{
    if s.len() < 2 {
        Seq::empty()
    } else {
        seq![((hex_val(s[0]) as int) * 16 + hex_val(s[1]) as int) as u8] + bytes_of_hex(s.skip(2))
    }
}

/// A string of hex digits denotes one byte per digit pair.
pub proof fn lemma_bytes_of_hex_len(s: Seq<char>)
    requires
        s.len() % 2 == 0,
    ensures
        bytes_of_hex(s).len() == s.len() / 2,
    decreases s.len(),
{
    if s.len() >= 2 {
        lemma_bytes_of_hex_len(s.skip(2));
    }
}

/// Relies on hex::encode: two lowercase digits per byte, high nibble first.
#[verifier::external_body]
fn hex_encode(data: &[u8]) -> (r: String)
    ensures
        r@ == hex_of(data@),
{
    hex::encode(data)
}

/// Relies on hex::decode: it accepts exactly the even-length strings of hex
/// digits (of either case) and returns the bytes they denote.
#[verifier::external_body]
fn hex_decode(s: &str) -> (r: Option<Vec<u8>>)
    ensures
        match r {
            Some(v) => s@.len() % 2 == 0 && all_hex(s@) && v@ == bytes_of_hex(s@),
            None => !(s@.len() % 2 == 0 && all_hex(s@)),
        },
{
    hex::decode(s).ok()
}

/// The lowercase hex spelling of a uuid, used as an upload id.
pub fn uuid_hex(u: &Uuid) -> (r: String)
    ensures
        r@ == hex_of(u@),
{
    hex_encode(u.as_slice())
}

/// An upload id is the hex spelling of a 32-byte uuid: 64 hex digits, of
/// either case. Anything else is rejected.
pub fn uuid_from_str(id: &str) -> (r: Result<Uuid, ()>)
    ensures
        match r {
            Ok(u) => id@.len() == 64 && all_hex(id@) && u@ == bytes_of_hex(id@),
            Err(_) => !(id@.len() == 64 && all_hex(id@)),
        },
{
    let v = match hex_decode(id) {
        None => {
            return Err(());
        },
        Some(v) => v,
    };
    proof {
        lemma_bytes_of_hex_len(id@);
    }
    if v.len() != 32 {
        return Err(());
    }
    let u: Uuid = [
        v[0], v[1], v[2], v[3], v[4], v[5], v[6], v[7], v[8], v[9], v[10], v[11], v[12], v[13],
        v[14], v[15], v[16], v[17], v[18], v[19], v[20], v[21], v[22], v[23], v[24], v[25], v[26],
        v[27], v[28], v[29], v[30], v[31],
    ];
    assert(u@ =~= v@);
    Ok(u)
}

/// A decimal digit.
pub open spec fn is_dec_digit(c: char) -> bool {
    0x30 <= c as int && c as int <= 0x39
}

/// Every character is a decimal digit.
pub open spec fn all_dec(s: Seq<char>) -> bool {
    forall|i: int| 0 <= i < s.len() ==> is_dec_digit(s[i])
}

/// The number a string of decimal digits denotes.
pub open spec fn dec_val(s: Seq<char>) -> int
    decreases s.len(),
{
    if s.len() == 0 {
        0
    } else {
        dec_val(s.take(s.len() - 1)) * 10 + (s.last() as int - 0x30)
    }
}

/// A digit string denotes nothing negative.
pub proof fn lemma_dec_val_nonneg(s: Seq<char>)
    requires
        all_dec(s),
    ensures
        dec_val(s) >= 0,
    decreases s.len(),
{
    if s.len() > 0 {
        assert(all_dec(s.take(s.len() - 1)));
        lemma_dec_val_nonneg(s.take(s.len() - 1));
    }
}

/// Digits only ever grow the value: a prefix denotes no more than the
/// whole.
pub proof fn lemma_dec_val_prefix(s: Seq<char>, m: int)
    requires
        all_dec(s),
        0 <= m <= s.len(),
    ensures
        dec_val(s.take(m)) <= dec_val(s),
    decreases s.len() - m,
{
    if m < s.len() {
        let t = s.take(s.len() - 1);
        assert(all_dec(t));
        lemma_dec_val_prefix(t, m);
        assert(t.take(m) =~= s.take(m));
        lemma_dec_val_nonneg(t);
        assert(is_dec_digit(s[s.len() - 1]));
        assert(dec_val(s) == dec_val(t) * 10 + (s.last() as int - 0x30));
        assert(dec_val(t) <= dec_val(t) * 10);
    } else {
        assert(s.take(m) =~= s);
    }
}

/// The digits of a decimal spelling: one optional leading plus sign is
/// accepted and is not part of the value.
pub open spec fn dec_digits(s: Seq<char>) -> Seq<char> {
    if s.len() > 0 && s[0] == '+' {
        s.skip(1)
    } else {
        s
    }
}

/// Parse a decimal number: accepts exactly an optional plus sign followed
/// by at least one digit, when the value fits in a `u64`.
pub fn parse_u64(s: &str) -> (r: Option<u64>)
    ensures
        ({
            let d = dec_digits(s@);
            match r {
                Some(n) => d.len() > 0 && all_dec(d) && n == dec_val(d),
                None => !(d.len() > 0 && all_dec(d) && dec_val(d) <= u64::MAX),
            }
        }),
{
    let ghost d = dec_digits(s@);
    let n = s.unicode_len();
    if n == 0 {
        return None;
    }
    let first = s.get_char(0);
    let start: usize = if first == '+' {
        1
    } else {
        0
    };
    proof {
        if start == 0 {
            assert(s@.skip(0) =~= s@);
        }
        assert(d == s@.skip(start as int));
        assert(forall|j: int| 0 <= j < d.len() ==> d[j] == s@[j + start]);
    }
    if n == start {
        return None;
    }
    let mut acc: u64 = 0;
    let mut i: usize = start;
    proof {
        assert(d.take(0) =~= Seq::<char>::empty());
    }
    while i < n
        invariant
            start <= i <= n,
            n == s@.len(),
            d == dec_digits(s@),
            d == s@.skip(start as int),
            forall|j: int| 0 <= j < d.len() ==> d[j] == s@[j + start],
            forall|j: int| 0 <= j < i - start ==> is_dec_digit(#[trigger] d[j]),
            acc == dec_val(d.take(i - start)),
        decreases n - i,
    {
        let c = s.get_char(i);
        let cv = c as u32;
        if cv < 0x30 || cv > 0x39 {
            assert(!is_dec_digit(d[i - start]));
            return None;
        }
        let dv = (cv - 0x30) as u64;
        proof {
            assert(d.take(i - start + 1).last() == d[i - start]);
            assert(d[i - start] == s@[i as int]);
            assert(d.take(i - start + 1).take(i - start) =~= d.take(i - start));
            assert(dec_val(d.take(i - start + 1)) == acc * 10 + dv);
        }
        if acc > 1844674407370955161u64 || (acc == 1844674407370955161u64 && dv > 5) {
            proof {
                assert(dec_val(d.take(i - start + 1)) > u64::MAX);
                if all_dec(d) {
                    lemma_dec_val_prefix(d, i - start + 1);
                }
            }
            return None;
        }
        acc = acc * 10 + dv;
        i += 1;
    }
    proof {
        assert(d.take(n - start) =~= d);
    }
    Some(acc)
}

/// The response body of a simple upload: the hex uuid and a newline.
pub fn put_response(version_uuid: &Uuid) -> (r: String)
    ensures
        r@ == hex_of(version_uuid@) + seq!['\n'],
{
    let mut s = hex_encode(version_uuid.as_slice());
    proof {
        reveal_strlit("\n");
    }
    s.append("\n");
    assert(s@ =~= hex_of(version_uuid@) + seq!['\n']);
    s
}

} // verus!
