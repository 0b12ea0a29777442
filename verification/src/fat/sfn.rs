//! FAT short-name generation and LFN UTF-16 helpers (path-pure).

use vstd::prelude::*;
use vstd::utf8::encode_utf8;

use crate::codec::fat::sfn_layout::{current_dir_raw, parent_dir_raw, Sfn};
use crate::text::lemma_char_is_scalar;

verus! {

/// The characters of a pure 8.3 short name: uppercase letters, digits, and
/// a set of punctuation. Notably excludes `.` (the separator), space, and
/// `+ , ; = [ ]`.
pub open spec fn sfn_legal(c: char) -> bool {
    ('A' <= c && c <= 'Z') || ('0' <= c && c <= '9') || c == '$' || c == '%' || c == '\'' || c
        == '-' || c == '_' || c == '@' || c == '~' || c == '`' || c == '!' || c == '(' || c == ')'
        || c == '{' || c == '}' || c == '^' || c == '#' || c == '&'
}

/// Whether `c` can appear in a pure 8.3 short name.
#[inline]
fn is_sfn_char(c: char) -> (r: bool)
    ensures
        r == sfn_legal(c),
        r ==> (c as int) < 128,
{
    ('A' <= c && c <= 'Z') || ('0' <= c && c <= '9') || c == '$' || c == '%' || c == '\'' || c
        == '-' || c == '_' || c == '@' || c == '~' || c == '`' || c == '!' || c == '(' || c == ')'
        || c == '{' || c == '}' || c == '^' || c == '#' || c == '&'
}

/// Place of the first dot at or after `from`, or the length.
pub open spec fn first_dot(s: Seq<char>, from: int) -> int
    decreases s.len() - from,
{
    if from < 0 || from >= s.len() {
        s.len() as int
    } else if s[from] == '.' {
        from
    } else {
        first_dot(s, from + 1)
    }
}

/// Place of the last dot before `to`, if there is one.
pub open spec fn last_dot(s: Seq<char>, to: int) -> Option<int>
    decreases to,
{
    if to <= 0 {
        None
    } else if s[to - 1] == '.' {
        Some(to - 1)
    } else {
        last_dot(s, to - 1)
    }
}

/// `b` cut or padded with blanks to `n` bytes.
pub open spec fn blank_padded(b: Seq<u8>, n: int) -> Seq<u8> {
    Seq::new(
        n as nat,
        |i: int|
            if i < b.len() {
                b[i]
            } else {
                0x20u8
            },
    )
}

/// ASCII text as bytes.
pub open spec fn ascii_bytes(s: Seq<char>) -> Seq<u8> {
    s.map_values(|c: char| c as u8)
}

/// Every character is legal in a short name.
pub open spec fn all_legal(s: Seq<char>) -> bool {
    forall|i: int| 0 <= i < s.len() ==> sfn_legal(#[trigger] s[i])
}

/// The part of `s` before its first dot.
pub open spec fn base_part(s: Seq<char>) -> Seq<char> {
    s.subrange(0, first_dot(s, 0))
}

/// The part of `s` after its first dot.
pub open spec fn ext_part(s: Seq<char>) -> Seq<char> {
    if first_dot(s, 0) < s.len() {
        s.subrange(first_dot(s, 0) + 1, s.len() as int)
    } else {
        seq![]
    }
}

/// The short name that stores `s` exactly, if there is one: `.` and `..`,
/// and names of up to eight legal characters with up to three more behind
/// one dot. Anything else needs a long name and a generated alias.
pub open spec fn exact_sfn(s: Seq<char>) -> Option<Seq<u8>> {
    if s == seq!['.'] {
        Some(current_dir_raw())
    } else if s == seq!['.', '.'] {
        Some(parent_dir_raw())
    } else if 1 <= base_part(s).len() <= 8 && ext_part(s).len() <= 3 && all_legal(base_part(s))
        && all_legal(ext_part(s)) {
        Some(
            blank_padded(ascii_bytes(base_part(s)), 8) + blank_padded(
                ascii_bytes(ext_part(s)),
                3,
            ),
        )
    } else {
        None
    }
}

/// The first dot lies within the text.
pub proof fn lemma_first_dot(s: Seq<char>, from: int)
    requires
        0 <= from <= s.len(),
    ensures
        from <= first_dot(s, from) <= s.len(),
        forall|i: int| from <= i < first_dot(s, from) ==> s[i] != '.',
        first_dot(s, from) < s.len() ==> s[first_dot(s, from)] == '.',
    decreases s.len() - from,
{
    if from < s.len() && s[from] != '.' {
        lemma_first_dot(s, from + 1);
    }
}

/// The characters of a string.
fn chars_of(s: &str) -> (out: Vec<char>)
    ensures
        out@ == s@,
{
    let n: usize = s.unicode_len();
    let mut out: Vec<char> = Vec::new();
    let mut i: usize = 0;
    while i < n
        invariant
            i <= n,
            n == s@.len(),
            out@ =~= s@.subrange(0, i as int),
        decreases n - i,
    {
        out.push(s.get_char(i));
        i += 1;
    }
    assert(out@ =~= s@);
    out
}

pub fn as_sfn(string: &str) -> (r: Option<Sfn>)
    ensures
        match r {
            Some(sfn) => exact_sfn(string@) == Some(sfn.raw()),
            None => exact_sfn(string@) is None,
        },
{
    let s: Vec<char> = chars_of(string);
    let n: usize = s.len();
    // Special directory names: splitting at the dot would mangle these.
    if n == 1 && s[0] == '.' {
        assert(string@ =~= seq!['.']);
        return Some(Sfn::current_dir());
    }
    if n == 2 && s[0] == '.' && s[1] == '.' {
        assert(string@ =~= seq!['.', '.']);
        return Some(Sfn::parent_dir());
    }
    assert(string@ != seq!['.']) by {
        if string@ == seq!['.'] {
            assert(string@[0] == '.');
        }
    }
    assert(string@ != seq!['.', '.']) by {
        if string@ == seq!['.', '.'] {
            assert(string@[0] == '.' && string@[1] == '.');
        }
    }
    let mut dot: usize = 0;
    while dot < n && s[dot] != '.'
        invariant
            n == s@.len(),
            s@ == string@,
            dot <= n,
            first_dot(s@, 0) == first_dot(s@, dot as int),
        decreases n - dot,
    {
        dot += 1;
    }
    let ghost d = first_dot(s@, 0);
    assert(dot == d);
    let ext_from: usize = if dot < n {
        dot + 1
    } else {
        n
    };
    let ext_len: usize = n - ext_from;
    proof {
        assert(base_part(string@).len() == dot);
        assert(ext_part(string@).len() == ext_len);
    }
    if dot == 0 || dot > 8 || ext_len > 3 {
        return None;
    }
    let mut name: [u8; 8] = [0x20u8;8];
    let mut i: usize = 0;
    while i < dot
        invariant
            n == s@.len(),
            s@ == string@,
            1 <= dot <= 8,
            dot == first_dot(s@, 0),
            dot <= n,
            i <= dot,
            !(string@ == seq!['.']),
            !(string@ == seq!['.', '.']),
            forall|k: int| 0 <= k < i ==> sfn_legal(#[trigger] s@[k]),
            forall|k: int| 0 <= k < i ==> name@[k] == s@[k] as u8,
            forall|k: int| i <= k < 8 ==> name@[k] == 0x20,
        decreases dot - i,
    {
        let c: char = s[i];
        if !is_sfn_char(c) {
            assert(base_part(string@)[i as int] == c);
            return None;
        }
        name[i] = c as u8;
        i += 1;
    }
    let mut ext: [u8; 3] = [0x20u8;3];
    let mut j: usize = 0;
    while j < ext_len
        invariant
            n == s@.len(),
            s@ == string@,
            dot == first_dot(s@, 0),
            dot <= n,
            ext_from == (if dot < n {
                dot + 1
            } else {
                n as int
            }),
            ext_len == n - ext_from,
            ext_len <= 3,
            j <= ext_len,
            !(string@ == seq!['.']),
            !(string@ == seq!['.', '.']),
            forall|k: int| 0 <= k < j ==> sfn_legal(#[trigger] s@[ext_from + k]),
            forall|k: int| 0 <= k < j ==> ext@[k] == s@[ext_from + k] as u8,
            forall|k: int| j <= k < 3 ==> ext@[k] == 0x20,
        decreases ext_len - j,
    {
        let c: char = s[ext_from + j];
        if !is_sfn_char(c) {
            proof {
                assert(ext_part(string@)[j as int] == c);
            }
            return None;
        }
        ext[j] = c as u8;
        j += 1;
    }
    let sfn = Sfn { name, ext };
    proof {
        let (b, e) = (base_part(string@), ext_part(string@));
        assert(all_legal(b)) by {
            assert forall|k: int| 0 <= k < b.len() implies sfn_legal(#[trigger] b[k]) by {
                assert(b[k] == s@[k]);
            }
        }
        assert(all_legal(e)) by {
            assert forall|k: int| 0 <= k < e.len() implies sfn_legal(#[trigger] e[k]) by {
                assert(e[k] == s@[ext_from + k]);
            }
        }
        assert(name@ =~= blank_padded(ascii_bytes(b), 8));
        assert(ext@ =~= blank_padded(ascii_bytes(e), 3));
    }
    Some(sfn)
}

/// `c` in upper case, if it is an ASCII letter.
pub open spec fn upper_char(c: char) -> char {
    if 'a' <= c && c <= 'z' {
        (c as u8 - 0x20) as char
    } else {
        c
    }
}

/// The byte that stands for `c` in a generated short name: upper-cased, and
/// an underscore for what a short name cannot hold.
pub open spec fn alias_byte(c: char) -> u8 {
    if sfn_legal(upper_char(c)) {
        upper_char(c) as u8
    } else {
        0x5F
    }
}

/// `c` is left out of generated short names.
pub open spec fn alias_dropped(c: char) -> bool {
    c as int >= 128 || c == ' ' || c == '.'
}

/// The bytes of `s` in a generated short name: spaces, dots and non-ASCII
/// characters dropped, the rest upper-cased or replaced.
pub open spec fn alias_of(s: Seq<char>) -> Seq<u8>
    decreases s.len(),
{
    if s.len() == 0 {
        seq![]
    } else if alias_dropped(s.last()) {
        alias_of(s.drop_last())
    } else {
        alias_of(s.drop_last()).push(alias_byte(s.last()))
    }
}

/// What a generated short name's stem is made from: the name up to its last
/// dot.
pub open spec fn alias_stem(s: Seq<char>) -> Seq<u8> {
    match last_dot(s, s.len() as int) {
        Some(d) => alias_of(s.subrange(0, d)),
        None => alias_of(s),
    }
}

/// The extension of a generated short name: from the part behind the last
/// dot.
pub open spec fn alias_ext(s: Seq<char>) -> Seq<u8> {
    match last_dot(s, s.len() as int) {
        Some(d) => blank_padded(alias_of(s.subrange(d + 1, s.len() as int)), 3),
        None => blank_padded(seq![], 3),
    }
}

proof fn lemma_last_dot(s: Seq<char>, to: int)
    requires
        0 <= to <= s.len(),
    ensures
        last_dot(s, to) matches Some(d) ==> 0 <= d < to,
    decreases to,
{
    if to > 0 && s[to - 1] != '.' {
        lemma_last_dot(s, to - 1);
    }
}

fn alias_chars(s: &Vec<char>, from: usize, to: usize) -> (out: Vec<u8>)
    requires
        from <= to <= s@.len(),
    ensures
        out@ == alias_of(s@.subrange(from as int, to as int)),
{
    let mut out: Vec<u8> = Vec::new();
    let mut i: usize = from;
    assert(s@.subrange(from as int, from as int) =~= seq![]);
    while i < to
        invariant
            from <= i <= to <= s@.len(),
            out@ == alias_of(s@.subrange(from as int, i as int)),
        decreases to - i,
    {
        let c: char = s[i];
        proof {
            let t = s@.subrange(from as int, i + 1);
            assert(t.drop_last() =~= s@.subrange(from as int, i as int));
            assert(t.last() == c);
            lemma_char_is_scalar(c);
        }
        if (c as u32) < 128 && c != ' ' && c != '.' {
            let up: u8 = if 'a' <= c && c <= 'z' {
                c as u8 - 0x20
            } else {
                c as u8
            };
            let legal: bool = is_sfn_char(up as char);
            out.push(
                if legal {
                    up
                } else {
                    0x5F
                },
            );
        }
        i += 1;
    }
    out
}

/// The stem and 3-byte extension a generated short name is built from:
/// split at the last dot, uppercase, drop spaces/dots/non-ASCII, and
/// replace remaining SFN-illegal ASCII with `_` (Windows-alias style).
pub fn sfn_stem_ext(long_name: &str) -> (r: (Vec<u8>, [u8; 3]))
    ensures
        r.0@ == alias_stem(long_name@),
        r.1@ == alias_ext(long_name@),
{
    let s: Vec<char> = chars_of(long_name);
    let n: usize = s.len();
    let mut to: usize = n;
    proof {
        lemma_last_dot(s@, n as int);
        assert(s@.subrange(0, n as int) =~= s@);
    }
    while to > 0 && s[to - 1] != '.'
        invariant
            to <= n,
            n == s@.len(),
            last_dot(s@, n as int) == last_dot(s@, to as int),
        decreases to,
    {
        to -= 1;
    }
    let (stem, ext_chars) = if to > 0 {
        (alias_chars(&s, 0, to - 1), alias_chars(&s, to, n))
    } else {
        (alias_chars(&s, 0, n), Vec::new())
    };
    let mut ext: [u8; 3] = [0x20u8;3];
    let mut i: usize = 0;
    while i < 3 && i < ext_chars.len()
        invariant
            i <= 3,
            i <= ext_chars@.len(),
            forall|k: int| 0 <= k < i ==> ext@[k] == ext_chars@[k],
            forall|k: int| i <= k < 3 ==> ext@[k] == 0x20,
        decreases 3 - i,
    {
        ext[i] = ext_chars[i];
        i += 1;
    }
    assert(ext@ =~= blank_padded(ext_chars@, 3));
    assert(ext@ =~= alias_ext(long_name@));
    (stem, ext)
}

/// The name field of a generated short name: the stem cut so that the tail
/// survives whole.
pub open spec fn short_name_of(stem: Seq<u8>, tail: Seq<u8>) -> Seq<u8> {
    let keep = 8 - tail.len();
    blank_padded(
        (if stem.len() < keep {
            stem
        } else {
            stem.subrange(0, keep)
        }) + tail,
        8,
    )
}

/// Fit `stem` + `tail` into the 8-byte name field, trimming `stem` so `tail`
/// (the `~N` suffix) always survives, then space-padding.
pub fn compose_short_name(stem: &[u8], tail: &[u8], ext: [u8; 3]) -> (r: Sfn)
    requires
        tail@.len() <= 8,
    ensures
        r.name@ == short_name_of(stem@, tail@),
        r.ext == ext,
{
    let keep: usize = 8 - tail.len();
    let head: usize = if stem.len() < keep {
        stem.len()
    } else {
        keep
    };
    let mut name: [u8; 8] = [0x20u8;8];
    let mut i: usize = 0;
    while i < head
        invariant
            i <= head <= 8,
            head <= stem@.len(),
            forall|k: int| 0 <= k < i ==> name@[k] == stem@[k],
            forall|k: int| i <= k < 8 ==> name@[k] == 0x20,
        decreases head - i,
    {
        name[i] = stem[i];
        i += 1;
    }
    let mut j: usize = 0;
    while j < tail.len()
        invariant
            j <= tail@.len(),
            head + tail@.len() <= 8,
            head <= stem@.len(),
            forall|k: int| 0 <= k < head ==> name@[k] == stem@[k],
            forall|k: int| 0 <= k < j ==> name@[head + k] == tail@[k],
            forall|k: int| head + j <= k < 8 ==> name@[k] == 0x20,
        decreases tail@.len() - j,
    {
        name[head + j] = tail[j];
        j += 1;
    }
    proof {
        let k8 = 8 - tail@.len();
        let h = if stem@.len() < k8 {
            stem@
        } else {
            stem@.subrange(0, k8)
        };
        assert(h.len() == head);
        assert forall|i: int| 0 <= i < 8 implies name@[i] == blank_padded(h + tail@, 8)[i] by {
            if head <= i < head + tail@.len() {
                assert(name@[head + (i - head)] == tail@[i - head]);
            }
        }
        assert(name@ =~= blank_padded(h + tail@, 8));
    }
    Sfn { name, ext }
}

/// 32-bit FNV-1a.
pub open spec fn fnv1a(b: Seq<u8>) -> u32
    decreases b.len(),
{
    if b.len() == 0 {
        0x811c_9dc5
    } else {
        (((fnv1a(b.drop_last()) ^ (b.last() as u32)) * 0x0100_0193) % 0x1_0000_0000) as u32
    }
}

/// The 16-bit digest of a name: FNV-1a over its UTF-8 form, halves folded.
pub open spec fn name_digest(b: Seq<u8>) -> int {
    (fnv1a(b) ^ (fnv1a(b) >> 16)) as int % 0x1_0000
}

/// A 16-bit FNV-1a digest, folded, for the hashed short-name tail.
fn name_hash(bytes: &[u8]) -> (r: u16)
    ensures
        r == name_digest(bytes@),
{
    let mut h: u32 = 0x811c_9dc5;
    let mut i: usize = 0;
    while i < bytes.len()
        invariant
            i <= bytes@.len(),
            h == fnv1a(bytes@.subrange(0, i as int)),
        decreases bytes@.len() - i,
    {
        proof {
            assert(bytes@.subrange(0, i + 1).drop_last() =~= bytes@.subrange(0, i as int));
        }
        let x: u64 = (h ^ (bytes[i] as u32)) as u64;
        h = ((x * 0x0100_0193) % 0x1_0000_0000) as u32;
        i += 1;
    }
    assert(bytes@.subrange(0, i as int) =~= bytes@);
    ((h ^ (h >> 16)) % 0x1_0000) as u16
}

/// The ASCII digit of a hexadecimal place.
pub open spec fn hex_digit(v: int) -> u8 {
    if v < 10 {
        (0x30 + v) as u8
    } else {
        (0x37 + v) as u8
    }
}

/// The tail `~n`.
pub open spec fn number_tail(n: int) -> Seq<u8> {
    seq![0x7Eu8, (0x30 + n) as u8]
}

/// The tail `~HHHH`.
pub open spec fn hex_tail(tag: int) -> Seq<u8> {
    seq![
        0x7Eu8,
        hex_digit(tag / 0x1000),
        hex_digit((tag / 0x100) % 0x10),
        hex_digit((tag / 0x10) % 0x10),
        hex_digit(tag % 0x10),
    ]
}

fn hex_char(v: u16) -> (r: u8)
    requires
        v < 16,
    ensures
        r == hex_digit(v as int),
{
    if v < 10 {
        0x30 + v as u8
    } else {
        0x37 + v as u8
    }
}

/// The generated short name with a numeric tail.
pub open spec fn numbered_sfn(s: Seq<char>, n: int) -> Seq<u8> {
    short_name_of(alias_stem(s), number_tail(n)) + alias_ext(s)
}

/// The generated short name with a hexadecimal tail.
pub open spec fn tagged_sfn(s: Seq<char>, tag: int) -> Seq<u8> {
    short_name_of(alias_stem(s), hex_tail(tag)) + alias_ext(s)
}

/// The generated short name with the tail `~n`.
pub fn numbered(stem: &[u8], ext: [u8; 3], n: u8) -> (r: Sfn)
    requires
        n <= 9,
    ensures
        r.raw() == short_name_of(stem@, number_tail(n as int)) + ext@,
{
    let tail: [u8; 2] = [0x7E, 0x30 + n];
    assert(tail@ =~= number_tail(n as int));
    compose_short_name(stem, &tail, ext)
}

/// The generated short name with the tail `~HHHH`.
pub fn tagged(stem: &[u8], ext: [u8; 3], tag: u16) -> (r: Sfn)
    ensures
        r.raw() == short_name_of(stem@, hex_tail(tag as int)) + ext@,
{
    let tail: [u8; 5] = [
        0x7E,
        hex_char(tag / 0x1000),
        hex_char((tag / 0x100) % 0x10),
        hex_char((tag / 0x10) % 0x10),
        hex_char(tag % 0x10),
    ];
    assert(tail@ =~= hex_tail(tag as int));
    compose_short_name(stem, &tail, ext)
}

/// The digest of a name's UTF-8 form.
pub fn digest_of(long_name: &str) -> (r: u16)
    ensures
        r == name_digest(encode_utf8(long_name@)),
{
    name_hash(long_name.as_bytes())
}

} // verus!
