//! What short names look like, and which of them is chosen.

use vstd::prelude::*;
use vstd::utf8::encode_utf8;

use super::dir_slots::FatDir;
use super::directory::has_sfn;
use super::layout::FatLayout;
use super::sfn::{
    alias_of, alias_stem, base_part, exact_sfn, ext_part, first_dot, last_dot, lemma_first_dot,
    name_digest, numbered_sfn, sfn_legal, tagged_sfn,
};
use super::slot_iter::fat_listing;
use crate::error::FsError;

verus! {

/// `c` is a capital letter, a digit, or one of the punctuation marks that a short
/// name may hold.
pub open spec fn plain_in_short(c: char) -> bool {
    ||| 'A' <= c <= 'Z'
    ||| '0' <= c <= '9'
    ||| seq![
        '$',
        '%',
        '\'',
        '-',
        '_',
        '@',
        '~',
        '`',
        '!',
        '(',
        ')',
        '{',
        '}',
        '^',
        '#',
        '&',
    ].contains(c)
}

proof fn lemma_plain_in_short(c: char)
    ensures
        plain_in_short(c) == sfn_legal(c),
{
    let marks = seq![
        '$',
        '%',
        '\'',
        '-',
        '_',
        '@',
        '~',
        '`',
        '!',
        '(',
        ')',
        '{',
        '}',
        '^',
        '#',
        '&',
    ];
    assert(marks[0] == '$' && marks[1] == '%' && marks[2] == '\'' && marks[3] == '-' && marks[4]
        == '_' && marks[5] == '@' && marks[6] == '~' && marks[7] == '`' && marks[8] == '!'
        && marks[9] == '(' && marks[10] == ')' && marks[11] == '{' && marks[12] == '}' && marks[13]
        == '^' && marks[14] == '#' && marks[15] == '&');
    assert(marks.len() == 16);
}

/// `raw` holds `b` in the bytes from `from` to `to`, followed by blanks.
pub open spec fn holds_padded(raw: Seq<u8>, from: int, to: int, b: Seq<char>) -> bool {
    forall|i: int|
        from <= i < to ==> #[trigger] raw[i] == (if i - from < b.len() {
            b[i - from] as u8
        } else {
            0x20u8
        })
}

/// A name is stored as a short name exactly as it stands if and only if it is one
/// to eight characters that a short name may hold, with nothing behind them or a
/// dot and up to three more: the former then fill the first eight bytes and the
/// latter the last three, with blanks behind them.
pub proof fn law_exact_short_name(base: Seq<char>, ext: Seq<char>)
    requires
        forall|i: int| 0 <= i < base.len() ==> #[trigger] base[i] != '.',
        base.len() > 0,
    ensures
        ({
            let fits = base.len() <= 8 && forall|i: int|
                0 <= i < base.len() ==> plain_in_short(#[trigger] base[i]);
            let both = fits && ext.len() <= 3 && forall|i: int|
                0 <= i < ext.len() ==> plain_in_short(#[trigger] ext[i]);
            let (one, two) = (exact_sfn(base), exact_sfn(base.push('.') + ext));
            &&& one is Some <==> fits
            &&& two is Some <==> both
            &&& fits ==> one->0.len() == 11 && holds_padded(one->0, 0, 8, base) && holds_padded(
                one->0,
                8,
                11,
                seq![],
            )
            &&& both ==> two->0.len() == 11 && holds_padded(two->0, 0, 8, base) && holds_padded(
                two->0,
                8,
                11,
                ext,
            )
        }),
{
    let long = base.push('.') + ext;
    lemma_first_dot(base, 0);
    lemma_first_dot(long, 0);
    assert forall|i: int| 0 <= i < base.len() implies long[i] != '.' by {
        assert(long[i] == base[i]);
    }
    assert(long[base.len() as int] == '.');
    assert(first_dot(long, 0) == base.len());
    assert(first_dot(base, 0) == base.len()) by {
        if first_dot(base, 0) < base.len() {
            assert(base[first_dot(base, 0)] == '.');
        }
    }
    assert(base_part(base) =~= base && ext_part(base) =~= seq![]);
    assert(base_part(long) =~= base && ext_part(long) =~= ext);
    assert(base[0] != '.' && long[0] == base[0]);
    assert(base != seq!['.'] && long != seq!['.'] && base != seq!['.', '.'] && long != seq![
        '.',
        '.',
    ]) by {
        assert(seq!['.'][0] == '.' && seq!['.', '.'][0] == '.');
    }
    assert forall|c: char| plain_in_short(c) == sfn_legal(c) by {
        lemma_plain_in_short(c);
    }
}

/// What stands in a generated short name for the characters of a name: nothing
/// for a blank, a dot or a character that is not ASCII, the capital for a small
/// letter, the character itself where a short name may hold it, and an underscore
/// for any other. Each character gives its own, in order.
pub proof fn law_alias_characters(a: Seq<char>, c: char)
    ensures
        alias_of(Seq::empty()) == Seq::<u8>::empty(),
        alias_of(a.push(c)) == alias_of(a) + (if c as u32 >= 128 || c == ' ' || c == '.' {
            Seq::<u8>::empty()
        } else if 'a' <= c <= 'z' {
            seq![(c as u8 - 0x20) as u8]
        } else if plain_in_short(c) {
            seq![c as u8]
        } else {
            seq![0x5Fu8]
        }),
{
    lemma_plain_in_short(c);
    assert(a.push(c).drop_last() =~= a);
    let out = alias_of(a);
    assert(out + Seq::<u8>::empty() =~= out);
    if !(c as u32 >= 128 || c == ' ' || c == '.') {
        if 'a' <= c <= 'z' {
            let up = (c as u8 - 0x20) as char;
            assert('A' <= up <= 'Z');
            assert(out.push((c as u8 - 0x20) as u8) =~= out + seq![(c as u8 - 0x20) as u8]);
        } else {
            assert(out.push(c as u8) =~= out + seq![c as u8]);
            assert(out.push(0x5F) =~= out + seq![0x5Fu8]);
        }
    }
}

proof fn lemma_last_dot_at(s: Seq<char>, d: int, to: int)
    requires
        0 <= d < to <= s.len(),
        s[d] == '.',
        forall|i: int| d < i < to ==> s[i] != '.',
    ensures
        last_dot(s, to) == Some(d),
    decreases to,
{
    if to - 1 > d {
        assert(s[to - 1] != '.');
        lemma_last_dot_at(s, d, to - 1);
    }
}

proof fn lemma_no_last_dot(s: Seq<char>, to: int)
    requires
        0 <= to <= s.len(),
        forall|i: int| 0 <= i < to ==> s[i] != '.',
    ensures
        last_dot(s, to) is None,
    decreases to,
{
    if to > 0 {
        assert(s[to - 1] != '.');
        lemma_no_last_dot(s, to - 1);
    }
}

/// `raw` is the name field made of the bytes of `stem`, as many as leave room for
/// the tail, then the tail and then blanks; and the extension made of the first
/// three bytes of `ext` and blanks.
pub open spec fn made_of(raw: Seq<u8>, stem: Seq<u8>, tail: Seq<u8>, ext: Seq<u8>) -> bool {
    let k = if stem.len() + tail.len() <= 8 {
        stem.len() as int
    } else {
        8 - tail.len()
    };
    &&& raw.len() == 11
    &&& forall|i: int| 0 <= i < k ==> #[trigger] raw[i] == stem[i]
    &&& forall|i: int| k <= i < k + tail.len() ==> #[trigger] raw[i] == tail[i - k]
    &&& forall|i: int| k + tail.len() <= i < 8 ==> #[trigger] raw[i] == 0x20
    &&& forall|i: int|
        8 <= i < 11 ==> #[trigger] raw[i] == (if i - 8 < ext.len() {
            ext[i - 8]
        } else {
            0x20u8
        })
}

/// The capital hexadecimal digit for the low four bits of `v`.
pub open spec fn nibble_digit(v: u16) -> u8 {
    let n = v & 0xF;
    if n <= 9 {
        ('0' as u8 + n) as u8
    } else {
        ('A' as u8 + (n - 10)) as u8
    }
}

/// A generated short name is made from the part of the name before its last dot,
/// followed by a tilde and a digit, or by a tilde and four hexadecimal digits; its
/// extension is made from the part behind the last dot, if there is a dot.
pub proof fn law_generated_short_name(stem: Seq<char>, ext: Seq<char>, n: int, tag: u16)
    requires
        forall|i: int| 0 <= i < ext.len() ==> #[trigger] ext[i] != '.',
        0 <= n <= 9,
    ensures
        ({
            let name = stem.push('.') + ext;
            let (s, e) = (alias_of(stem), alias_of(ext));
            let digit = seq!['~' as u8, ('0' as u8 + n) as u8];
            let hex = seq![
                '~' as u8,
                nibble_digit(tag >> 12u16),
                nibble_digit(tag >> 8u16),
                nibble_digit(tag >> 4u16),
                nibble_digit(tag),
            ];
            &&& made_of(numbered_sfn(name, n), s, digit, e)
            &&& made_of(tagged_sfn(name, tag as int), s, hex, e)
            &&& made_of(numbered_sfn(ext, n), e, digit, seq![])
            &&& made_of(tagged_sfn(ext, tag as int), e, hex, seq![])
        }),
{
    let name = stem.push('.') + ext;
    let d = stem.len() as int;
    assert(name[d] == '.');
    assert forall|i: int| d < i < name.len() implies name[i] != '.' by {
        assert(name[i] == ext[i - d - 1]);
    }
    lemma_last_dot_at(name, d, name.len() as int);
    lemma_no_last_dot(ext, ext.len() as int);
    assert(name.subrange(0, d) =~= stem);
    assert(name.subrange(d + 1, name.len() as int) =~= ext);
    assert(alias_stem(name) == alias_of(stem) && alias_stem(ext) == alias_of(ext));
    assert(tag >> 12u16 == tag / 0x1000 && (tag >> 8u16) & 0xF == (tag / 0x100) % 0x10 && (tag
        >> 4u16) & 0xF == (tag / 0x10) % 0x10 && tag & 0xF == tag % 0x10 && (tag >> 12u16) & 0xF
        == tag / 0x1000) by (bit_vector);
    let hex = seq![
        '~' as u8,
        nibble_digit(tag >> 12u16),
        nibble_digit(tag >> 8u16),
        nibble_digit(tag >> 4u16),
        nibble_digit(tag),
    ];
    assert(super::sfn::hex_tail(tag as int) =~= hex);
    let digit = seq!['~' as u8, ('0' as u8 + n) as u8];
    assert(super::sfn::number_tail(n) =~= digit);
    assert(hex.len() == 5 && digit.len() == 2);
}

proof fn lemma_numbered_first(l: FatLayout, img: Seq<u8>, dir: FatDir, name: Seq<char>, m: int, n: int)
    requires
        fat_listing(l, img, dir).1 is None,
        1 <= m <= n <= 5,
        forall|j: int|
            m <= j < n ==> has_sfn(fat_listing(l, img, dir).0, #[trigger] numbered_sfn(name, j)),
        n == 5 || !has_sfn(fat_listing(l, img, dir).0, numbered_sfn(name, n)),
    ensures
        l.numbered_free(img, dir, name, m) == Ok::<Option<Seq<u8>>, FsError<()>>(
            if n == 5 {
                None
            } else {
                Some(numbered_sfn(name, n))
            },
        ),
    decreases n - m,
{
    if m < n {
        assert(has_sfn(fat_listing(l, img, dir).0, numbered_sfn(name, m)));
        lemma_numbered_first(l, img, dir, name, m + 1, n);
    }
}

proof fn lemma_tagged_first(
    l: FatLayout,
    img: Seq<u8>,
    dir: FatDir,
    name: Seq<char>,
    tag: int,
    i: int,
    k: int,
)
    requires
        fat_listing(l, img, dir).1 is None,
        0 <= i <= k <= 0x1_0000,
        forall|j: int|
            i <= j < k ==> has_sfn(
                fat_listing(l, img, dir).0,
                #[trigger] tagged_sfn(name, (tag + j) % 0x1_0000),
            ),
        k == 0x1_0000 || !has_sfn(
            fat_listing(l, img, dir).0,
            tagged_sfn(name, (tag + k) % 0x1_0000),
        ),
    ensures
        l.tagged_free(img, dir, name, (tag + i) % 0x1_0000, i) == (if k == 0x1_0000 {
            Err::<Seq<u8>, FsError<()>>(FsError::StorageFull)
        } else {
            Ok(tagged_sfn(name, (tag + k) % 0x1_0000))
        }),
    decreases k - i,
{
    if i < k {
        let t = (tag + i) % 0x1_0000;
        assert(has_sfn(fat_listing(l, img, dir).0, tagged_sfn(name, t)));
        assert((t + 1) % 0x1_0000 == (tag + (i + 1)) % 0x1_0000);
        lemma_tagged_first(l, img, dir, name, tag, i + 1, k);
    }
}

/// The short name for a new entry of a directory that can be read. It is the exact
/// one, if there is one and no entry carries it; else the first that no entry
/// carries of those with the tails 1 to 4; else the first unused one with a
/// hexadecimal tail, counting up from the name's digest and on from zero. Where
/// every one of them is taken there is none left.
pub proof fn law_short_name_choice(
    l: FatLayout,
    img: Seq<u8>,
    dir: FatDir,
    name: Seq<char>,
    n: int,
    k: int,
)
    requires
        fat_listing(l, img, dir).1 is None,
        1 <= n <= 5,
        0 <= k <= 0x1_0000,
    ensures
        ({
            let all = fat_listing(l, img, dir).0;
            let tag = name_digest(encode_utf8(name));
            let r = l.sfn_chosen(img, dir, name);
            let exact = exact_sfn(name) is Some && !has_sfn(all, exact_sfn(name)->0);
            let tried = forall|j: int|
                1 <= j < n ==> has_sfn(all, #[trigger] numbered_sfn(name, j));
            let tags_tried = forall|j: int|
                0 <= j < k ==> has_sfn(all, #[trigger] tagged_sfn(name, (tag + j) % 0x1_0000));
            let next = tagged_sfn(name, (tag + k) % 0x1_0000);
            &&& exact ==> r == Ok::<Seq<u8>, FsError<()>>(exact_sfn(name)->0)
            &&& !exact && n <= 4 && tried && !has_sfn(all, numbered_sfn(name, n)) ==> r == Ok::<
                Seq<u8>,
                FsError<()>,
            >(numbered_sfn(name, n))
            &&& !exact && n == 5 && tried && tags_tried ==> {
                &&& k < 0x1_0000 && !has_sfn(all, next) ==> r == Ok::<Seq<u8>, FsError<()>>(next)
                &&& k == 0x1_0000 ==> r == Err::<Seq<u8>, FsError<()>>(FsError::StorageFull)
            }
        }),
{
    let all = fat_listing(l, img, dir).0;
    let tag = name_digest(encode_utf8(name));
    let exact = exact_sfn(name) is Some && !has_sfn(all, exact_sfn(name)->0);
    let tried = forall|j: int| 1 <= j < n ==> has_sfn(all, #[trigger] numbered_sfn(name, j));
    let tags_tried = forall|j: int|
        0 <= j < k ==> has_sfn(all, #[trigger] tagged_sfn(name, (tag + j) % 0x1_0000));
    if !exact && tried {
        if n == 5 {
            lemma_numbered_first(l, img, dir, name, 1, n);
            if tags_tried && (k == 0x1_0000 || !has_sfn(
                all,
                tagged_sfn(name, (tag + k) % 0x1_0000),
            )) {
                lemma_tagged_first(l, img, dir, name, tag, 0, k);
                assert((tag + 0) % 0x1_0000 == tag);
            }
        } else if !has_sfn(all, numbered_sfn(name, n)) {
            lemma_numbered_first(l, img, dir, name, 1, n);
        }
    }
}

} // verus!
