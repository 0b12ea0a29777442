//! Paths as lists of components.

use vstd::prelude::*;

verus! {

/// The characters that separate path components.
pub open spec fn is_separator(c: char) -> bool {
    c == '\\' || c == '/'
}

/// The components of `s` from `from` on, where `cur` is the part of the
/// current component already seen: runs of characters that are no separator.
pub open spec fn components_from(s: Seq<char>, from: int, cur: Seq<char>) -> Seq<Seq<char>>
    decreases s.len() - from,
{
    if from < 0 || from >= s.len() {
        if cur.len() == 0 {
            seq![]
        } else {
            seq![cur]
        }
    } else if is_separator(s[from]) {
        if cur.len() == 0 {
            components_from(s, from + 1, seq![])
        } else {
            seq![cur] + components_from(s, from + 1, seq![])
        }
    } else {
        components_from(s, from + 1, cur.push(s[from]))
    }
}

/// The components of a path. An empty path, `/` and `\` have none: they name
/// the root.
pub open spec fn components_of(s: Seq<char>) -> Seq<Seq<char>> {
    components_from(s, 0, seq![])
}

/// The names held by a list of strings.
pub open spec fn names_of(v: Seq<String>) -> Seq<Seq<char>> {
    Seq::new(v.len(), |i: int| v[i]@)
}

/// Split a path (`/` or `\` separated) into its components.
pub fn split_components(path: &str) -> (out: Vec<String>)
    ensures
        names_of(out@) == components_of(path@),
{
    let n: usize = path.unicode_len();
    let mut out: Vec<String> = Vec::new();
    let mut cur = String::new();
    let mut cur_len: usize = 0;
    let mut i: usize = 0;
    assert(names_of(out@) + components_of(path@) =~= components_of(path@));
    assert(cur@ =~= Seq::<char>::empty());
    while i < n
        invariant
            i <= n,
            n == path@.len(),
            cur_len == cur@.len(),
            cur_len <= i,
            names_of(out@) + components_from(path@, i as int, cur@) == components_of(path@),
        decreases n - i,
    {
        let c: char = path.get_char(i);
        let ghost done = names_of(out@);
        if c == '\\' || c == '/' {
            if cur_len > 0 {
                let ghost last = cur@;
                out.push(cur);
                cur = String::new();
                cur_len = 0;
                proof {
                    assert(cur@ =~= Seq::<char>::empty());
                    assert(names_of(out@) =~= done.push(last));
                    assert(names_of(out@) + components_from(path@, i + 1, cur@) =~= done + (seq![
                        last,
                    ] + components_from(path@, i + 1, seq![])));
                }
            } else {
                assert(cur@ =~= Seq::<char>::empty());
            }
        } else {
            cur.push(c);
            cur_len += 1;
        }
        i += 1;
    }
    let ghost done = names_of(out@);
    if cur_len > 0 {
        let ghost last = cur@;
        out.push(cur);
        proof {
            assert(names_of(out@) =~= done + seq![last]);
        }
    } else {
        assert(names_of(out@) =~= done + Seq::<Seq<char>>::empty());
    }
    out
}

/// No Windows file name holds this character.
pub open spec fn is_forbidden(c: char) -> bool {
    c == '"' || c == '*' || c == ':' || c == '<' || c == '>' || c == '?' || c == '|' || c as int
        == 0
}

/// The path holds no character that a file name cannot hold.
pub open spec fn valid_path(s: Seq<char>) -> bool {
    forall|i: int| 0 <= i < s.len() ==> !is_forbidden(#[trigger] s[i])
}

/// Whether a path is valid: it holds no character that a file name cannot hold.
pub fn is_valid_path(path: &str) -> (r: bool)
    ensures
        r == valid_path(path@),
{
    let n: usize = path.unicode_len();
    let mut i: usize = 0;
    while i < n
        invariant
            i <= n,
            n == path@.len(),
            forall|k: int| 0 <= k < i ==> !is_forbidden(#[trigger] path@[k]),
        decreases n - i,
    {
        let c: char = path.get_char(i);
        if c == '"' || c == '*' || c == ':' || c == '<' || c == '>' || c == '?' || c == '|'
            || c as u32 == 0 {
            assert(is_forbidden(path@[i as int]));
            return false;
        }
        i += 1;
    }
    true
}

/// The last of the components that is not `.` is `..`.
pub open spec fn goes_up_last(c: Seq<Seq<char>>) -> bool
    decreases c.len(),
{
    if c.len() == 0 {
        false
    } else if c.last() == seq!['.'] {
        goes_up_last(c.drop_last())
    } else {
        c.last() == seq!['.', '.']
    }
}

/// The path ends in `..`, whatever number of `.` comes behind it: it names no
/// file.
pub open spec fn ends_in_parent(s: Seq<char>) -> bool {
    goes_up_last(components_of(s))
}

/// Whether a path ends in `..`.
pub fn ends_with_parent(path: &str) -> (r: bool)
    ensures
        r == ends_in_parent(path@),
{
    let parts: Vec<String> = split_components(path);
    let ghost all = names_of(parts@);
    let mut n: usize = parts.len();
    assert(all.subrange(0, n as int) =~= all);
    while n > 0
        invariant
            n <= parts@.len(),
            all == names_of(parts@),
            all == components_of(path@),
            goes_up_last(all) == goes_up_last(all.subrange(0, n as int)),
        decreases n,
    {
        proof {
            let head = all.subrange(0, n as int);
            assert(head.last() == parts@[n - 1]@);
            assert(head.drop_last() =~= all.subrange(0, n - 1));
        }
        if !is_dot(parts[n - 1].as_str()) {
            return is_dotdot(parts[n - 1].as_str());
        }
        n -= 1;
    }
    false
}

/// The components of a path with `.` left out and `..` taking back the
/// component before it; at the root `..` stays there.
pub open spec fn normalized(c: Seq<Seq<char>>) -> Seq<Seq<char>>
    decreases c.len(),
{
    if c.len() == 0 {
        seq![]
    } else {
        let before = normalized(c.drop_last());
        if c.last() == seq!['.'] {
            before
        } else if c.last() == seq!['.', '.'] {
            if before.len() == 0 {
                before
            } else {
                before.drop_last()
            }
        } else {
            before.push(c.last())
        }
    }
}

/// The normalized components of a path.
pub fn normalized_components(path: &str) -> (out: Vec<String>)
    ensures
        names_of(out@) == normalized(components_of(path@)),
{
    let parts: Vec<String> = split_components(path);
    let ghost all = names_of(parts@);
    let mut out: Vec<String> = Vec::new();
    let mut i: usize = 0;
    assert(names_of(out@) =~= normalized(all.subrange(0, 0)));
    while i < parts.len()
        invariant
            i <= parts@.len(),
            all == names_of(parts@),
            names_of(out@) == normalized(all.subrange(0, i as int)),
        decreases parts@.len() - i,
    {
        let ghost before = names_of(out@);
        proof {
            assert(all.subrange(0, i + 1).drop_last() =~= all.subrange(0, i as int));
            assert(all.subrange(0, i + 1).last() == parts@[i as int]@);
        }
        let part: &str = parts[i].as_str();
        if is_dot(part) {
        } else if is_dotdot(part) {
            if out.len() > 0 {
                let _ = out.pop();
                assert(names_of(out@) =~= before.drop_last());
            }
        } else {
            out.push(parts[i].clone());
            assert(names_of(out@) =~= before.push(part@));
        }
        i += 1;
    }
    assert(all.subrange(0, all.len() as int) =~= all);
    out
}

/// Whether a component is `.`.
pub fn is_dot(c: &str) -> (r: bool)
    ensures
        r == (c@ == seq!['.']),
{
    if c.unicode_len() != 1 {
        return false;
    }
    let r: bool = c.get_char(0) == '.';
    proof {
        if r {
            assert(c@ =~= seq!['.']);
        }
    }
    r
}

/// Whether a component is `..`.
pub fn is_dotdot(c: &str) -> (r: bool)
    ensures
        r == (c@ == seq!['.', '.']),
{
    if c.unicode_len() != 2 {
        return false;
    }
    let r: bool = c.get_char(0) == '.' && c.get_char(1) == '.';
    proof {
        if r {
            assert(c@ =~= seq!['.', '.']);
        }
    }
    r
}

/// A component: not empty, and without separators.
pub open spec fn is_component(c: Seq<char>) -> bool {
    c.len() > 0 && forall|k: int| 0 <= k < c.len() ==> !is_separator(#[trigger] c[k])
}

proof fn lemma_components_clean(s: Seq<char>, from: int, cur: Seq<char>)
    requires
        forall|k: int| 0 <= k < cur.len() ==> !is_separator(#[trigger] cur[k]),
    ensures
        forall|i: int|
            0 <= i < components_from(s, from, cur).len() ==> is_component(
                #[trigger] components_from(s, from, cur)[i],
            ),
    decreases s.len() - from,
{
    let all = components_from(s, from, cur);
    if from < 0 || from >= s.len() {
        assert forall|i: int| 0 <= i < all.len() implies is_component(#[trigger] all[i]) by {
            assert(all[0] == cur);
        }
    } else if is_separator(s[from]) {
        lemma_components_clean(s, from + 1, seq![]);
        let rest = components_from(s, from + 1, seq![]);
        if cur.len() > 0 {
            assert forall|i: int| 0 <= i < all.len() implies is_component(#[trigger] all[i]) by {
                if i == 0 {
                    assert(all[0] == cur);
                } else {
                    assert(all[i] == rest[i - 1]);
                }
            }
        } else {
            assert(all == rest);
            assert forall|i: int| 0 <= i < all.len() implies is_component(#[trigger] all[i]) by {
                assert(is_component(rest[i]));
            }
        }
    } else {
        let longer = cur.push(s[from]);
        assert forall|k: int| 0 <= k < longer.len() implies !is_separator(#[trigger] longer[k]) by {
            if k < cur.len() {
                assert(longer[k] == cur[k]);
            }
        }
        lemma_components_clean(s, from + 1, longer);
        assert(all == components_from(s, from + 1, longer));
        assert forall|i: int| 0 <= i < all.len() implies is_component(#[trigger] all[i]) by {
            assert(is_component(components_from(s, from + 1, longer)[i]));
        }
    }
}

/// Every component of a path is non-empty and free of separators.
pub proof fn law_components_clean(s: Seq<char>)
    ensures
        forall|i: int|
            0 <= i < components_of(s).len() ==> is_component(#[trigger] components_of(s)[i]),
{
    lemma_components_clean(s, 0, seq![]);
}

} // verus!
