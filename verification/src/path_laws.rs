//! What paths, names and handle-table keys mean, by how they are put together.

use vstd::prelude::*;

use crate::dir::joined_path;
use crate::handles::{at_or_under, KEY_SEPARATOR};
use crate::name::{
    law_same_key_same_names, law_same_names_same_key, lemma_folded_component, NamePolicy,
};
use crate::path::{
    components_from, components_of, goes_up_last, is_component, is_forbidden, is_separator,
    law_components_clean, normalized, valid_path,
};
use crate::text::{lemma_char_is_scalar, units_of_char, utf16_of};

verus! {

/// Splitting goes on in the second part as it would from its start.
proof fn lemma_split_shifted(x: Seq<char>, b: Seq<char>, j: int, cur: Seq<char>)
    requires
        0 <= j <= b.len(),
    ensures
        components_from(x + b, x.len() + j, cur) == components_from(b, j, cur),
    decreases b.len() - j,
{
    if j < b.len() {
        let s = x + b;
        assert(s[x.len() + j] == b[j]);
        if is_separator(b[j]) {
            lemma_split_shifted(x, b, j + 1, seq![]);
        } else {
            lemma_split_shifted(x, b, j + 1, cur.push(b[j]));
        }
    }
}

/// Splitting two parts with a separator between them.
proof fn lemma_split_joined(a: Seq<char>, sep: char, b: Seq<char>, from: int, cur: Seq<char>)
    requires
        is_separator(sep),
        0 <= from <= a.len(),
    ensures
        components_from(a.push(sep) + b, from, cur) == components_from(a, from, cur) + components_of(
            b,
        ),
    decreases a.len() - from,
{
    let s = a.push(sep) + b;
    let none = Seq::<Seq<char>>::empty();
    if from == a.len() {
        assert(s[from] == sep);
        lemma_split_shifted(a.push(sep), b, 0, seq![]);
        assert(components_from(s, from + 1, seq![]) == components_of(b));
        assert(none + components_of(b) =~= components_of(b));
    } else {
        assert(s[from] == a[from]);
        if is_separator(a[from]) {
            lemma_split_joined(a, sep, b, from + 1, seq![]);
            let rest = components_from(a, from + 1, seq![]);
            assert(seq![cur] + (rest + components_of(b)) =~= (seq![cur] + rest) + components_of(b));
        } else {
            lemma_split_joined(a, sep, b, from + 1, cur.push(a[from]));
        }
    }
}

/// A path is split at its slashes and backslashes: two paths with one of them in
/// between have the components of the first and then those of the second, and
/// text without any is one component. An empty path has none.
pub proof fn law_paths_split_at_separators(a: Seq<char>, b: Seq<char>, c: Seq<char>)
    requires
        c.len() > 0,
        forall|i: int| 0 <= i < c.len() ==> #[trigger] c[i] != '/' && c[i] != '\\',
    ensures
        components_of(a.push('/') + b) == components_of(a) + components_of(b),
        components_of(a.push('\\') + b) == components_of(a) + components_of(b),
        components_of(c) == seq![c],
        components_of(Seq::empty()) == Seq::<Seq<char>>::empty(),
{
    lemma_split_joined(a, '/', b, 0, seq![]);
    lemma_split_joined(a, '\\', b, 0, seq![]);
    lemma_split_whole(c, 0);
    assert(c.subrange(0, 0) =~= seq![]);
}

/// Text without separators is gathered whole.
proof fn lemma_split_whole(c: Seq<char>, from: int)
    requires
        c.len() > 0,
        0 <= from <= c.len(),
        forall|i: int| 0 <= i < c.len() ==> !is_separator(#[trigger] c[i]),
    ensures
        components_from(c, from, c.subrange(0, from)) == seq![c],
    decreases c.len() - from,
{
    if from < c.len() {
        assert(!is_separator(c[from]));
        assert(c.subrange(0, from).push(c[from]) =~= c.subrange(0, from + 1));
        lemma_split_whole(c, from + 1);
    } else {
        assert(c.subrange(0, from) =~= c);
    }
}

/// The path under which an entry is listed leads to it: it has the components of
/// the directory's path and then the entry's name.
pub proof fn law_listed_path_leads_to_entry(base: Seq<char>, name: Seq<char>)
    requires
        is_component(name),
    ensures
        components_of(joined_path(base, name)) == components_of(base).push(name),
{
    assert forall|i: int| 0 <= i < name.len() implies #[trigger] name[i] != '/' && name[i] != '\\' by {
        assert(!is_separator(name[i]));
    }
    let none = Seq::<char>::empty();
    law_paths_split_at_separators(base, name, name);
    assert(components_of(base) + seq![name] =~= components_of(base).push(name));
    if base.len() == 0 {
        assert(base + name =~= name);
        assert(base =~= none);
        assert(components_of(base) + seq![name] =~= seq![name]);
    } else if is_separator(base.last()) {
        let head = base.drop_last();
        assert(head.push(base.last()) =~= base);
        assert(base + none =~= base);
        lemma_split_joined(head, base.last(), name, 0, seq![]);
        lemma_split_joined(head, base.last(), none, 0, seq![]);
        assert(components_of(head) + components_of(none) =~= components_of(head));
        assert(components_of(head) + seq![name] =~= components_of(head).push(name));
    }
}

/// Normalizing what follows depends on what comes before only by its normal form.
proof fn lemma_normalized_behind(s: Seq<Seq<char>>, t: Seq<Seq<char>>, b: Seq<Seq<char>>)
    requires
        normalized(s) == normalized(t),
    ensures
        normalized(s + b) == normalized(t + b),
    decreases b.len(),
{
    if b.len() == 0 {
        assert(s + b =~= s && t + b =~= t);
    } else {
        lemma_normalized_behind(s, t, b.drop_last());
        assert((s + b).drop_last() =~= s + b.drop_last());
        assert((t + b).drop_last() =~= t + b.drop_last());
        assert((s + b).last() == b.last() && (t + b).last() == b.last());
    }
}

/// Normalizing leaves out every `.`, takes a name back with the `..` behind it,
/// stays at the root where `..` would leave it, and keeps a path without either
/// as it is.
pub proof fn law_normalized_path(a: Seq<Seq<char>>, x: Seq<char>, b: Seq<Seq<char>>)
    ensures
        normalized(a.push(seq!['.']) + b) == normalized(a + b),
        x != seq!['.'] && x != seq!['.', '.'] ==> normalized(
            a.push(x).push(seq!['.', '.']) + b,
        ) == normalized(a + b),
        normalized(seq![seq!['.', '.']] + b) == normalized(b),
        (forall|i: int|
            0 <= i < b.len() ==> #[trigger] b[i] != seq!['.'] && b[i] != seq!['.', '.'])
            ==> normalized(b) == b,
{
    let (dot, up) = (seq!['.'], seq!['.', '.']);
    assert(dot.len() == 1 && up.len() == 2);
    assert(a.push(dot).drop_last() =~= a);
    lemma_normalized_behind(a.push(dot), a, b);
    if x != dot && x != up {
        assert(a.push(x).drop_last() =~= a);
        assert(a.push(x).push(up).drop_last() =~= a.push(x));
        assert(normalized(a.push(x)) == normalized(a).push(x));
        assert(normalized(a).push(x).drop_last() =~= normalized(a));
        lemma_normalized_behind(a.push(x).push(up), a, b);
    }
    let none = Seq::<Seq<char>>::empty();
    let one = seq![up];
    assert(one.drop_last() =~= none);
    assert(normalized(none) =~= none);
    assert(normalized(one) =~= none);
    lemma_normalized_behind(one, none, b);
    assert(none + b =~= b);
    if forall|i: int| 0 <= i < b.len() ==> #[trigger] b[i] != dot && b[i] != up {
        lemma_normal_kept(b);
    }
}

proof fn lemma_normal_kept(b: Seq<Seq<char>>)
    requires
        forall|i: int|
            0 <= i < b.len() ==> #[trigger] b[i] != seq!['.'] && b[i] != seq!['.', '.'],
    ensures
        normalized(b) == b,
    decreases b.len(),
{
    if b.len() > 0 {
        let rest = b.drop_last();
        assert forall|i: int| 0 <= i < rest.len() implies #[trigger] rest[i] != seq!['.'] && rest[i]
            != seq!['.', '.'] by {
            assert(rest[i] == b[i]);
        }
        lemma_normal_kept(rest);
        assert(b.last() == b[b.len() - 1]);
        assert(rest.push(b.last()) =~= b);
    } else {
        assert(normalized(b) =~= b);
    }
}

/// A path ends by going up if its last component is `..`, however many `.` come
/// behind it.
pub proof fn law_path_that_goes_up(a: Seq<Seq<char>>, x: Seq<char>)
    requires
        x != seq!['.'],
    ensures
        goes_up_last(a.push(seq!['.'])) == goes_up_last(a),
        goes_up_last(a.push(x)) == (x == seq!['.', '.']),
        !goes_up_last(Seq::empty()),
{
    assert(a.push(seq!['.']).drop_last() =~= a);
}

/// A path is invalid if and only if a character of it is one of the seven that no
/// file name holds, or the null character.
pub proof fn law_invalid_characters(s: Seq<char>)
    ensures
        valid_path(s) <==> forall|i: int|
            0 <= i < s.len() ==> {
                let c = #[trigger] s[i];
                &&& c != '"'
                &&& c != '*'
                &&& c != ':'
                &&& c != '<'
                &&& c != '>'
                &&& c != '?'
                &&& c != '|'
                &&& c != '\0'
            },
{
    if valid_path(s) {
        assert forall|i: int| 0 <= i < s.len() implies {
            let c = #[trigger] s[i];
            &&& c != '"'
            &&& c != '*'
            &&& c != ':'
            &&& c != '<'
            &&& c != '>'
            &&& c != '?'
            &&& c != '|'
            &&& c != '\0'
        } by {
            assert(!is_forbidden(s[i]));
        }
    }
}

proof fn lemma_split_valid(s: Seq<char>, from: int, cur: Seq<char>)
    requires
        0 <= from <= s.len(),
        valid_path(s),
        valid_path(cur),
    ensures
        forall|i: int|
            0 <= i < components_from(s, from, cur).len() ==> valid_path(
                #[trigger] components_from(s, from, cur)[i],
            ),
    decreases s.len() - from,
{
    let out = components_from(s, from, cur);
    if from < s.len() {
        assert(!is_forbidden(s[from]));
        if is_separator(s[from]) {
            lemma_split_valid(s, from + 1, seq![]);
        } else {
            lemma_split_valid(s, from + 1, cur.push(s[from]));
        }
    }
    assert forall|i: int| 0 <= i < out.len() implies valid_path(#[trigger] out[i]) by {
        if from < s.len() {
            if !is_separator(s[from]) {
                assert(out == components_from(s, from + 1, cur.push(s[from])));
            } else {
                let rest = components_from(s, from + 1, seq![]);
                if cur.len() == 0 {
                    assert(out == rest);
                } else {
                    assert(out == seq![cur] + rest);
                    if i > 0 {
                        assert(valid_path(rest[i - 1]));
                    }
                }
            }
        } else {
            assert(out[i] == cur);
        }
    }
}

proof fn lemma_normalized_valid(c: Seq<Seq<char>>)
    requires
        forall|i: int| 0 <= i < c.len() ==> valid_path(#[trigger] c[i]),
    ensures
        forall|i: int| 0 <= i < normalized(c).len() ==> valid_path(#[trigger] normalized(c)[i]),
    decreases c.len(),
{
    if c.len() > 0 {
        let rest = c.drop_last();
        assert forall|i: int| 0 <= i < rest.len() implies valid_path(#[trigger] rest[i]) by {
            assert(rest[i] == c[i]);
        }
        lemma_normalized_valid(rest);
        assert(valid_path(c[c.len() - 1]));
        let before = normalized(rest);
        assert forall|i: int| 0 <= i < normalized(c).len() implies valid_path(
            #[trigger] normalized(c)[i],
        ) by {
            if i < before.len() {
                assert(valid_path(before[i]));
            }
        }
    }
}

/// The components of a valid path are valid, and stay so when it is normalized.
pub proof fn law_components_of_valid_path(s: Seq<char>)
    requires
        valid_path(s),
    ensures
        forall|i: int| 0 <= i < components_of(s).len() ==> valid_path(#[trigger] components_of(s)[i]),
        forall|i: int|
            0 <= i < normalized(components_of(s)).len() ==> valid_path(
                #[trigger] normalized(components_of(s))[i],
            ),
{
    lemma_split_valid(s, 0, seq![]);
    lemma_normalized_valid(components_of(s));
}

/// The key of a list of components begins with the keys of its first parts, each
/// followed by a separator.
proof fn lemma_key_begins(p: NamePolicy, a: Seq<Seq<char>>, n: int)
    requires
        0 < n <= a.len(),
    ensures
        ({
            let (whole, part) = (p.key_of(a), p.key_of(a.take(n)));
            &&& part.is_prefix_of(whole)
            &&& n < a.len() ==> part.len() < whole.len() && whole[part.len() as int] == KEY_SEPARATOR
            &&& n == a.len() ==> part.len() == whole.len()
        }),
    decreases a.len(),
{
    if n < a.len() {
        let rest = a.drop_last();
        lemma_key_begins(p, rest, n);
        assert(rest.take(n) =~= a.take(n));
        let (whole, part) = (p.key_of(a), p.key_of(a.take(n)));
        let mid = p.key_of(rest);
        assert(whole == mid.push(KEY_SEPARATOR) + p.folded(a.last()));
        assert(part =~= whole.subrange(0, part.len() as int)) by {
            assert(part =~= mid.subrange(0, part.len() as int));
        }
        if n == rest.len() {
            assert(whole[mid.len() as int] == KEY_SEPARATOR);
        } else {
            assert(whole[part.len() as int] == mid[part.len() as int]);
        }
    } else {
        assert(a.take(n) =~= a);
    }
}

/// A key lies at or under another if and only if the path it stands for begins
/// with the components of the other's path, each by the same name.
pub proof fn law_keys_nest_as_paths(p: NamePolicy, a: Seq<Seq<char>>, b: Seq<Seq<char>>)
    requires
        p.wf(),
        forall|i: int| 0 <= i < a.len() ==> is_component(#[trigger] a[i]),
        forall|i: int| 0 <= i < b.len() ==> is_component(#[trigger] b[i]),
    ensures
        at_or_under(p.key_of(a), p.key_of(b)) <==> b.len() <= a.len() && forall|i: int|
            0 <= i < b.len() ==> p.same_name(#[trigger] a[i], b[i]),
{
    let n = b.len() as int;
    if n <= a.len() && (forall|i: int| 0 <= i < b.len() ==> p.same_name(#[trigger] a[i], b[i])) {
        if n > 0 {
            let head = a.take(n);
            assert forall|i: int| 0 <= i < head.len() implies p.same_name(#[trigger] head[i], b[i]) by {
                assert(p.same_name(a[i], b[i]));
            }
            law_same_names_same_key(p, head, b);
            lemma_key_begins(p, a, n);
        }
    }
    if at_or_under(p.key_of(a), p.key_of(b)) {
        lemma_nested_key(p, a, b);
    }
}

/// A key that lies at or under another stands for a longer path.
proof fn lemma_nested_key(p: NamePolicy, a: Seq<Seq<char>>, b: Seq<Seq<char>>)
    requires
        p.wf(),
        forall|i: int| 0 <= i < a.len() ==> is_component(#[trigger] a[i]),
        forall|i: int| 0 <= i < b.len() ==> is_component(#[trigger] b[i]),
        at_or_under(p.key_of(a), p.key_of(b)),
    ensures
        b.len() <= a.len(),
        forall|i: int| 0 <= i < b.len() ==> p.same_name(#[trigger] a[i], b[i]),
    decreases a.len(),
{
    let (ka, kb) = (p.key_of(a), p.key_of(b));
    if b.len() > 0 {
        assert(is_component(b[b.len() - 1]));
        lemma_folded_component(p, b.last());
        assert(kb.len() > 0);
        if ka.len() == kb.len() {
            assert(ka =~= kb);
            law_same_key_same_names(p, a, b);
        } else {
            assert(a.len() > 0);
            assert(is_component(a[a.len() - 1]));
            lemma_folded_component(p, a.last());
            let rest = a.drop_last();
            assert forall|i: int| 0 <= i < rest.len() implies is_component(#[trigger] rest[i]) by {
                assert(is_component(a[i]));
            }
            let last = p.folded(a.last());
            let n = kb.len() as int;
            if a.len() == 1 {
                assert(ka == last);
                assert(ka[n] == KEY_SEPARATOR);
            } else {
                let mid = p.key_of(rest);
                assert(ka == mid.push(KEY_SEPARATOR) + last);
                if n > mid.len() {
                    assert(ka[n] == last[n - mid.len() - 1]);
                }
                assert(n <= mid.len());
                assert(kb.is_prefix_of(mid)) by {
                    assert(kb =~= mid.subrange(0, n));
                }
                if n < mid.len() {
                    assert(ka[n] == mid[n]);
                }
                lemma_nested_key(p, rest, b);
                assert forall|i: int| 0 <= i < b.len() implies p.same_name(#[trigger] a[i], b[i]) by {
                    assert(p.same_name(rest[i], b[i]));
                }
            }
        }
    }
}

/// The UTF-16 form of text is that of its characters one behind the other: one
/// unit for a character of the basic plane, its number, and for any other two
/// surrogates that hold ten bits each of its number less 0x1_0000, the upper
/// ones first.
pub proof fn law_utf16_by_character(a: Seq<char>, c: char)
    ensures
        utf16_of(Seq::empty()) == Seq::<u16>::empty(),
        utf16_of(seq![c] + a) == units_of_char(c) + utf16_of(a),
        (c as u32) < 0x1_0000 ==> units_of_char(c) == seq![c as u16],
        (c as u32) >= 0x1_0000 ==> {
            let v = (c as u32 - 0x1_0000) as u32;
            &&& units_of_char(c).len() == 2
            &&& units_of_char(c)[0] == 0xD800 + (v >> 10u32)
            &&& units_of_char(c)[1] == 0xDC00 + (v & 0x3FF)
        },
{
    lemma_char_is_scalar(c);
    let s = seq![c] + a;
    assert(s.first() == c && s.drop_first() =~= a);
    if c as u32 >= 0x1_0000 {
        let v = (c as u32 - 0x1_0000) as u32;
        assert(v >> 10u32 == v / 0x400 && v & 0x3FF == v % 0x400) by (bit_vector);
    }
}

/// On FAT volumes two names mean the same entry if and only if they differ, unit
/// by unit, by nothing but the case of the letters A to Z.
pub proof fn law_fat_names_fold_ascii_case(a: Seq<char>, b: Seq<char>)
    ensures
        NamePolicy::Ascii.same_name(a, b) <==> {
            let (x, y) = (utf16_of(a), utf16_of(b));
            x.len() == y.len() && forall|i: int|
                0 <= i < x.len() ==> {
                    ||| #[trigger] x[i] == y[i]
                    ||| 0x41 <= x[i] <= 0x5A && y[i] == x[i] + 0x20
                    ||| 0x41 <= y[i] <= 0x5A && x[i] == y[i] + 0x20
                }
        },
{
    let p = NamePolicy::Ascii;
    let (x, y) = (utf16_of(a), utf16_of(b));
    let (fx, fy) = (p.folded(a), p.folded(b));
    if fx == fy {
        assert(fx.len() == x.len() && fy.len() == y.len());
        assert forall|i: int| 0 <= i < x.len() implies {
            ||| #[trigger] x[i] == y[i]
            ||| 0x41 <= x[i] <= 0x5A && y[i] == x[i] + 0x20
            ||| 0x41 <= y[i] <= 0x5A && x[i] == y[i] + 0x20
        } by {
            assert(fx[i] == fy[i]);
        }
    }
    if x.len() == y.len() && (forall|i: int|
        0 <= i < x.len() ==> {
            ||| #[trigger] x[i] == y[i]
            ||| 0x41 <= x[i] <= 0x5A && y[i] == x[i] + 0x20
            ||| 0x41 <= y[i] <= 0x5A && x[i] == y[i] + 0x20
        }) {
        assert forall|i: int| 0 <= i < x.len() implies fx[i] == fy[i] by {
            assert(x[i] == y[i] || (0x41 <= x[i] <= 0x5A && y[i] == x[i] + 0x20) || (0x41 <= y[i]
                <= 0x5A && x[i] == y[i] + 0x20));
        }
        assert(fx =~= fy);
    }
}

/// Two names mean the same entry if and only if they are equally long and their
/// units fold alike, one by one.
pub proof fn law_names_fold_by_unit(p: NamePolicy, a: Seq<char>, b: Seq<char>)
    ensures
        p.same_name(a, b) <==> {
            let (x, y) = (utf16_of(a), utf16_of(b));
            x.len() == y.len() && forall|i: int|
                0 <= i < x.len() ==> p.folded_unit(#[trigger] x[i]) == p.folded_unit(y[i])
        },
{
    let (x, y) = (utf16_of(a), utf16_of(b));
    let (fx, fy) = (p.folded(a), p.folded(b));
    if fx == fy {
        assert(fx.len() == x.len() && fy.len() == y.len());
        assert forall|i: int| 0 <= i < x.len() implies p.folded_unit(#[trigger] x[i])
            == p.folded_unit(y[i]) by {
            assert(fx[i] == fy[i]);
        }
    }
    if x.len() == y.len() && (forall|i: int|
        0 <= i < x.len() ==> p.folded_unit(#[trigger] x[i]) == p.folded_unit(y[i])) {
        assert forall|i: int| 0 <= i < x.len() implies fx[i] == fy[i] by {
            assert(p.folded_unit(x[i]) == p.folded_unit(y[i]));
        }
        assert(fx =~= fy);
    }
}

/// Normalizing keeps components what they are.
proof fn lemma_normalized_components(c: Seq<Seq<char>>)
    requires
        forall|i: int| 0 <= i < c.len() ==> is_component(#[trigger] c[i]),
    ensures
        forall|i: int|
            0 <= i < normalized(c).len() ==> is_component(#[trigger] normalized(c)[i]),
    decreases c.len(),
{
    if c.len() > 0 {
        let rest = c.drop_last();
        assert forall|i: int| 0 <= i < rest.len() implies is_component(#[trigger] rest[i]) by {
            assert(rest[i] == c[i]);
        }
        lemma_normalized_components(rest);
        assert(is_component(c[c.len() - 1]));
        let before = normalized(rest);
        assert forall|i: int| 0 <= i < normalized(c).len() implies is_component(
            #[trigger] normalized(c)[i],
        ) by {
            if i < before.len() {
                assert(is_component(before[i]));
            }
        }
    }
}

/// Two paths have the same key in the table of open files if and only if they lead
/// through the same names once they are normalized.
pub proof fn law_same_key_same_path(p: NamePolicy, a: Seq<char>, b: Seq<char>)
    requires
        p.wf(),
    ensures
        ({
            let (x, y) = (normalized(components_of(a)), normalized(components_of(b)));
            p.path_key(a) == p.path_key(b) <==> x.len() == y.len() && forall|i: int|
                0 <= i < x.len() ==> p.same_name(#[trigger] x[i], y[i])
        }),
{
    let (x, y) = (normalized(components_of(a)), normalized(components_of(b)));
    law_components_clean(a);
    law_components_clean(b);
    lemma_normalized_components(components_of(a));
    lemma_normalized_components(components_of(b));
    if p.path_key(a) == p.path_key(b) {
        law_same_key_same_names(p, x, y);
    }
    if x.len() == y.len() && (forall|i: int| 0 <= i < x.len() ==> p.same_name(#[trigger] x[i], y[i])) {
        law_same_names_same_key(p, x, y);
    }
}

} // verus!
