//! Strings as sequences of characters and of UTF-16 units.

use vstd::prelude::*;

verus! {

/// `String::push` appends one character.
pub assume_specification[ String::push ](s: &mut String, c: char)
    ensures
        final(s)@ == old(s)@.push(c),
;

/// `char::from_u32` gives the character with that code point, for every code
/// point that is not a surrogate and not past the last plane.
pub assume_specification[ char::from_u32 ](v: u32) -> (r: Option<char>)
    ensures
        r is Some <==> is_scalar(v as int),
        r matches Some(c) ==> c as u32 == v,
;

/// The code points that characters have: no surrogates, up to U+10FFFF.
pub open spec fn is_scalar(v: int) -> bool {
    0 <= v < 0xD800 || 0xE000 <= v <= 0x10FFFF
}

/// The one or two UTF-16 units of a character.
pub open spec fn units_of_char(c: char) -> Seq<u16> {
    let v = c as int;
    if v < 0x1_0000 {
        seq![v as u16]
    } else {
        seq![(0xD800 + (v - 0x1_0000) / 0x400) as u16, (0xDC00 + (v - 0x1_0000) % 0x400) as u16]
    }
}

/// The UTF-16 form of a string.
pub open spec fn utf16_of(s: Seq<char>) -> Seq<u16>
    decreases s.len(),
{
    if s.len() == 0 {
        seq![]
    } else {
        units_of_char(s.first()) + utf16_of(s.drop_first())
    }
}

pub open spec fn is_high_surrogate(u: u16) -> bool {
    0xD800 <= u < 0xDC00
}

pub open spec fn is_low_surrogate(u: u16) -> bool {
    0xDC00 <= u < 0xE000
}

/// The character a surrogate pair stands for.
pub open spec fn pair_char(hi: u16, lo: u16) -> char {
    (0x1_0000 + (hi - 0xD800) * 0x400 + (lo - 0xDC00)) as char
}

/// The string a sequence of UTF-16 units stands for; `None` if a surrogate
/// stands alone.
pub open spec fn decoded_utf16(u: Seq<u16>) -> Option<Seq<char>>
    decreases u.len(),
{
    if u.len() == 0 {
        Some(seq![])
    } else if is_high_surrogate(u[0]) {
        if u.len() >= 2 && is_low_surrogate(u[1]) {
            match decoded_utf16(u.subrange(2, u.len() as int)) {
                Some(rest) => Some(seq![pair_char(u[0], u[1])] + rest),
                None => None,
            }
        } else {
            None
        }
    } else if is_low_surrogate(u[0]) {
        None
    } else {
        match decoded_utf16(u.subrange(1, u.len() as int)) {
            Some(rest) => Some(seq![u[0] as char] + rest),
            None => None,
        }
    }
}

/// Every character is a Unicode scalar value.
pub proof fn lemma_char_is_scalar(c: char)
    ensures
        is_scalar(c as int),
{
}

/// Decoding the UTF-16 form of a string gives the string back.
pub proof fn law_utf16_round_trip(s: Seq<char>)
    ensures
        decoded_utf16(utf16_of(s)) == Some(s),
    decreases s.len(),
{
    if s.len() > 0 {
        let c = s.first();
        let rest = s.drop_first();
        law_utf16_round_trip(rest);
        let u = utf16_of(s);
        let v = c as int;
        lemma_char_is_scalar(c);
        if v < 0x1_0000 {
            assert(u.subrange(1, u.len() as int) =~= utf16_of(rest));
            assert(u[0] as char == c);
            assert(seq![c] + rest =~= s);
        } else {
            let w = v - 0x1_0000;
            assert(0 <= w < 0x10_0000);
            assert(0 <= w / 0x400 < 0x400);
            assert(u[0] == 0xD800 + w / 0x400);
            assert(u[1] == 0xDC00 + w % 0x400);
            assert(u.subrange(2, u.len() as int) =~= utf16_of(rest));
            assert(pair_char(u[0], u[1]) == c);
            assert(seq![c] + rest =~= s);
        }
    } else {
        assert(s =~= seq![]);
    }
}

/// What decodes is the UTF-16 form of what it decodes to, so a string has
/// one UTF-16 form and no other.
pub proof fn law_utf16_decode_exact(u: Seq<u16>)
    ensures
        decoded_utf16(u) matches Some(s) ==> utf16_of(s) == u,
    decreases u.len(),
{
    match decoded_utf16(u) {
        Some(s) => {
            if u.len() == 0 {
                assert(utf16_of(s) =~= u);
            } else if is_high_surrogate(u[0]) {
                let rest = u.subrange(2, u.len() as int);
                law_utf16_decode_exact(rest);
                let c = pair_char(u[0], u[1]);
                let w = (u[0] - 0xD800) * 0x400 + (u[1] - 0xDC00);
                assert(c as int == 0x1_0000 + w);
                assert(w / 0x400 == u[0] - 0xD800);
                assert(w % 0x400 == u[1] - 0xDC00);
                assert(s.first() == c);
                assert(s.drop_first() =~= decoded_utf16(rest)->0);
                assert(utf16_of(s) =~= u);
            } else {
                let rest = u.subrange(1, u.len() as int);
                law_utf16_decode_exact(rest);
                assert(s.first() == u[0] as char);
                assert(s.drop_first() =~= decoded_utf16(rest)->0);
                assert(utf16_of(s) =~= u);
            }
        },
        None => {},
    }
}

/// Two strings with the same UTF-16 form are equal.
pub proof fn law_utf16_injective(s: Seq<char>, t: Seq<char>)
    requires
        utf16_of(s) == utf16_of(t),
    ensures
        s == t,
{
    law_utf16_round_trip(s);
    law_utf16_round_trip(t);
}

/// The UTF-16 form of two texts joined.
pub proof fn lemma_utf16_joined(a: Seq<char>, b: Seq<char>)
    ensures
        utf16_of(a + b) == utf16_of(a) + utf16_of(b),
    decreases a.len(),
{
    if a.len() == 0 {
        assert(a + b =~= b);
        assert(utf16_of(a) + utf16_of(b) =~= utf16_of(b));
    } else {
        assert((a + b).first() == a.first());
        assert((a + b).drop_first() =~= a.drop_first() + b);
        lemma_utf16_joined(a.drop_first(), b);
        assert(utf16_of(a) + utf16_of(b) =~= units_of_char(a.first()) + (utf16_of(a.drop_first())
            + utf16_of(b)));
    }
}

/// Two well-formed sequences of units, joined, decode to the two texts joined.
pub proof fn law_decoded_joined(u: Seq<u16>, v: Seq<u16>)
    requires
        decoded_utf16(u) is Some,
        decoded_utf16(v) is Some,
    ensures
        decoded_utf16(u + v) == Some(decoded_utf16(u)->0 + decoded_utf16(v)->0),
{
    let (s, t) = (decoded_utf16(u)->0, decoded_utf16(v)->0);
    law_utf16_decode_exact(u);
    law_utf16_decode_exact(v);
    lemma_utf16_joined(s, t);
    law_utf16_round_trip(s + t);
}

/// A string is no longer than its UTF-16 form, which is at most twice as long.
pub proof fn lemma_utf16_len(s: Seq<char>)
    ensures
        s.len() <= utf16_of(s).len() <= 2 * s.len(),
    decreases s.len(),
{
    if s.len() > 0 {
        lemma_utf16_len(s.drop_first());
    }
}

/// The UTF-16 units of `s`.
pub fn encode_utf16(s: &str) -> (out: Vec<u16>)
    ensures
        out@ == utf16_of(s@),
{
    let n: usize = s.unicode_len();
    let mut out: Vec<u16> = Vec::new();
    let mut i: usize = 0;
    assert(s@.subrange(0, n as int) =~= s@);
    while i < n
        invariant
            i <= n,
            n == s@.len(),
            out@ + utf16_of(s@.subrange(i as int, n as int)) == utf16_of(s@),
        decreases n - i,
    {
        let c: char = s.get_char(i);
        let v: u32 = c as u32;
        let ghost before = out@;
        let ghost tail = s@.subrange(i as int, n as int);
        proof {
            assert(tail.first() == c);
            assert(tail.drop_first() =~= s@.subrange(i + 1, n as int));
        }
        if v < 0x1_0000 {
            out.push(v as u16);
        } else {
            let w: u32 = v - 0x1_0000;
            out.push((0xD800 + w / 0x400) as u16);
            out.push((0xDC00 + w % 0x400) as u16);
        }
        proof {
            assert(out@ =~= before + units_of_char(c));
            assert(out@ + utf16_of(tail.drop_first()) =~= before + utf16_of(tail));
        }
        i += 1;
    }
    assert(out@ =~= utf16_of(s@));
    out
}

/// The string that `units` stand for; `None` if a surrogate stands alone.
pub fn decode_utf16(units: &[u16]) -> (r: Option<String>)
    ensures
        r is Some <==> decoded_utf16(units@) is Some,
        r matches Some(s) ==> decoded_utf16(units@) == Some(s@),
{
    let n: usize = units.len();
    let mut out = String::new();
    let mut i: usize = 0;
    assert(units@.subrange(0, n as int) =~= units@);
    proof {
        match decoded_utf16(units@) {
            Some(s) => {
                assert(out@ + s =~= s);
            },
            None => {},
        }
    }
    while i < n
        invariant
            i <= n,
            n == units@.len(),
            decoded_utf16(units@) == (match decoded_utf16(units@.subrange(i as int, n as int)) {
                Some(rest) => Some(out@ + rest),
                None => None,
            }),
        decreases n - i,
    {
        let u: u16 = units[i];
        let ghost tail = units@.subrange(i as int, n as int);
        let ghost before = out@;
        assert(tail[0] == u);
        if 0xD800 <= u && u < 0xDC00 {
            if n - i < 2 {
                return None;
            }
            let lo: u16 = units[i + 1];
            assert(tail[1] == lo);
            if !(0xDC00 <= lo && lo < 0xE000) {
                return None;
            }
            let v: u32 = 0x1_0000 + (u as u32 - 0xD800) * 0x400 + (lo as u32 - 0xDC00);
            proof {
                assert(v == pair_char(u, lo) as int);
                assert(tail.subrange(2, tail.len() as int) =~= units@.subrange(i + 2, n as int));
            }
            match char::from_u32(v) {
                Some(c) => {
                    out.push(c);
                    proof {
                        lemma_char_is_scalar(c);
                        match decoded_utf16(units@.subrange(i + 2, n as int)) {
                            Some(rest) => {
                                assert(out@ + rest =~= before + (seq![c] + rest));
                            },
                            None => {},
                        }
                    }
                },
                None => {
                    return None;
                },
            }
            i += 2;
        } else if 0xDC00 <= u && u < 0xE000 {
            return None;
        } else {
            proof {
                assert(tail.subrange(1, tail.len() as int) =~= units@.subrange(i + 1, n as int));
            }
            match char::from_u32(u as u32) {
                Some(c) => {
                    out.push(c);
                    proof {
                        lemma_char_is_scalar(c);
                        match decoded_utf16(units@.subrange(i + 1, n as int)) {
                            Some(rest) => {
                                assert(out@ + rest =~= before + (seq![c] + rest));
                            },
                            None => {},
                        }
                    }
                },
                None => {
                    return None;
                },
            }
            i += 1;
        }
    }
    proof {
        assert(out@ + seq![] =~= out@);
    }
    Some(out)
}

} // verus!
