//! Case-insensitive name comparison.
//!
//! Names are compared unit by unit after folding: classic FAT folds ASCII
//! letters, exFAT maps each UTF-16 unit through the volume's up-case table.

use vstd::prelude::*;

use crate::handles::KEY_SEPARATOR;
use crate::path::{components_of, is_component, names_of, normalized, normalized_components};
use crate::text::{encode_utf16, lemma_char_is_scalar, units_of_char, utf16_of};

verus! {

/// How names of a volume are folded before they are compared.
#[derive(Debug)]
pub enum NamePolicy {
    /// ASCII letters are upper-cased, everything else stands for itself.
    Ascii,
    /// The sparse up-case table of the volume: the units it maps elsewhere,
    /// in ascending order.
    Upcase(Vec<(u16, u16)>),
}

/// The table's keys ascend, so none occurs twice.
pub open spec fn table_sorted(t: Seq<(u16, u16)>) -> bool {
    forall|i: int, j: int| 0 <= i < j < t.len() ==> #[trigger] t[i].0 < #[trigger] t[j].0
}

/// The units of the two path separators.
pub open spec fn is_separator_unit(u: int) -> bool {
    u == 0x2F || u == 0x5C
}

/// The mappings ascend, and none of them touches a path separator.
pub open spec fn table_clean(t: Seq<(u16, u16)>) -> bool {
    &&& table_sorted(t)
    &&& forall|i: int|
        0 <= i < t.len() ==> !is_separator_unit((#[trigger] t[i]).0 as int) && !is_separator_unit(
            t[i].1 as int,
        )
}

/// `u` mapped through the table; units it does not name stand for themselves.
pub open spec fn mapped(t: Seq<(u16, u16)>, u: u16) -> u16
    decreases t.len(),
{
    if t.len() == 0 {
        u
    } else if t.last().0 == u {
        t.last().1
    } else {
        mapped(t.drop_last(), u)
    }
}

/// `u` with ASCII letters in upper case.
pub open spec fn ascii_upper(u: u16) -> u16 {
    if 0x61 <= u <= 0x7A {
        (u - 0x20) as u16
    } else {
        u
    }
}

/// Where the table names a unit, that is what it maps to.
pub proof fn lemma_mapped_hit(t: Seq<(u16, u16)>, u: u16, i: int)
    requires
        table_sorted(t),
        0 <= i < t.len(),
        t[i].0 == u,
    ensures
        mapped(t, u) == t[i].1,
    decreases t.len(),
{
    if i < t.len() - 1 {
        assert(t[i].0 < t[t.len() - 1].0);
        lemma_mapped_hit(t.drop_last(), u, i);
    }
}

/// Where the table does not name a unit, it stands for itself.
pub proof fn lemma_mapped_miss(t: Seq<(u16, u16)>, u: u16)
    requires
        forall|i: int| 0 <= i < t.len() ==> #[trigger] t[i].0 != u,
    ensures
        mapped(t, u) == u,
    decreases t.len(),
{
    if t.len() > 0 {
        assert(t[t.len() - 1].0 != u);
        assert forall|i: int| 0 <= i < t.drop_last().len() implies #[trigger] t.drop_last()[i].0
            != u by {
            assert(t[i].0 != u);
        }
        lemma_mapped_miss(t.drop_last(), u);
    }
}

impl NamePolicy {
    pub open spec fn wf(self) -> bool {
        match self {
            NamePolicy::Ascii => true,
            NamePolicy::Upcase(t) => table_clean(t@),
        }
    }

    /// The folded form of one UTF-16 unit.
    pub open spec fn folded_unit(self, u: u16) -> u16 {
        match self {
            NamePolicy::Ascii => ascii_upper(u),
            NamePolicy::Upcase(t) => mapped(t@, u),
        }
    }

    /// The folded form of a name.
    pub open spec fn folded(self, name: Seq<char>) -> Seq<u16> {
        utf16_of(name).map_values(|u: u16| self.folded_unit(u))
    }

    /// Two names mean the same entry.
    pub open spec fn same_name(self, a: Seq<char>, b: Seq<char>) -> bool {
        self.folded(a) == self.folded(b)
    }

    /// Folding for classic FAT volumes.
    pub fn ascii() -> (r: Self)
        ensures
            r == NamePolicy::Ascii,
            r.wf(),
    {
        NamePolicy::Ascii
    }

    /// Folding through an up-case table.
    pub fn upcase(table: Vec<(u16, u16)>) -> (r: Self)
        requires
            table_clean(table@),
        ensures
            r matches NamePolicy::Upcase(t) && t@ == table@,
            r.wf(),
    {
        NamePolicy::Upcase(table)
    }

    /// The folded form of one UTF-16 unit.
    pub fn upcase_unit(&self, u: u16) -> (r: u16)
        requires
            self.wf(),
        ensures
            r == self.folded_unit(u),
    {
        match self {
            NamePolicy::Ascii => {
                if 0x61 <= u && u <= 0x7A {
                    u - 0x20
                } else {
                    u
                }
            },
            NamePolicy::Upcase(table) => {
                let mut lo: usize = 0;
                let mut hi: usize = table.len();
                while lo < hi
                    invariant
                        table_sorted(table@),
                        *self == NamePolicy::Upcase(*table),
                        lo <= hi <= table@.len(),
                        forall|i: int| 0 <= i < lo ==> #[trigger] table@[i].0 < u,
                        forall|i: int| hi <= i < table@.len() ==> #[trigger] table@[i].0 > u,
                    decreases hi - lo,
                {
                    let mid: usize = lo + (hi - lo) / 2;
                    let key: u16 = table[mid].0;
                    if key == u {
                        proof {
                            lemma_mapped_hit(table@, u, mid as int);
                        }
                        return table[mid].1;
                    } else if key < u {
                        lo = mid + 1;
                    } else {
                        hi = mid;
                    }
                }
                proof {
                    lemma_mapped_miss(table@, u);
                }
                u
            },
        }
    }

    /// The folded form of a name.
    pub fn fold_units(&self, name: &str) -> (r: Vec<u16>)
        requires
            self.wf(),
        ensures
            r@ == self.folded(name@),
    {
        let units: Vec<u16> = encode_utf16(name);
        let mut out: Vec<u16> = Vec::new();
        let mut i: usize = 0;
        while i < units.len()
            invariant
                self.wf(),
                i <= units@.len(),
                units@ == utf16_of(name@),
                out@ =~= self.folded(name@).subrange(0, i as int),
            decreases units@.len() - i,
        {
            out.push(self.upcase_unit(units[i]));
            i += 1;
        }
        assert(out@ =~= self.folded(name@));
        out
    }

    /// The handle-table key of a list of components: their folded forms with
    /// separators between.
    pub open spec fn key_of(self, components: Seq<Seq<char>>) -> Seq<u16>
        decreases components.len(),
    {
        if components.len() == 0 {
            seq![]
        } else if components.len() == 1 {
            self.folded(components[0])
        } else {
            self.key_of(components.drop_last()).push(KEY_SEPARATOR) + self.folded(
                components.last(),
            )
        }
    }

    /// The handle-table key of a path: normalized and folded.
    pub open spec fn path_key(self, path: Seq<char>) -> Seq<u16> {
        self.key_of(normalized(components_of(path)))
    }

    /// The handle-table key of a path.
    pub fn fold_path(&self, path: &str) -> (key: Vec<u16>)
        requires
            self.wf(),
        ensures
            key@ == self.path_key(path@),
    {
        let parts: Vec<String> = normalized_components(path);
        let ghost names = names_of(parts@);
        let mut key: Vec<u16> = Vec::new();
        let mut i: usize = 0;
        assert(key@ =~= self.key_of(names.subrange(0, 0)));
        while i < parts.len()
            invariant
                self.wf(),
                names == names_of(parts@),
                i <= parts@.len(),
                key@ == self.key_of(names.subrange(0, i as int)),
            decreases parts@.len() - i,
        {
            let ghost before = key@;
            proof {
                assert(names.subrange(0, i + 1).drop_last() =~= names.subrange(0, i as int));
                assert(names.subrange(0, i + 1).last() == parts@[i as int]@);
            }
            if i > 0 {
                key.push(KEY_SEPARATOR);
            }
            let unit: Vec<u16> = self.fold_units(parts[i].as_str());
            let ghost sofar = key@;
            key.extend_from_slice(unit.as_slice());
            proof {
                assert(key@ =~= sofar + unit@);
                assert(key@ =~= self.key_of(names.subrange(0, i + 1)));
            }
            i += 1;
        }
        assert(names.subrange(0, names.len() as int) =~= names);
        key
    }

    /// Case-insensitive filename comparison.
    pub fn names_equal(&self, a: &str, b: &str) -> (r: bool)
        requires
            self.wf(),
        ensures
            r == self.same_name(a@, b@),
    {
        let x: Vec<u16> = self.fold_units(a);
        let y: Vec<u16> = self.fold_units(b);
        if x.len() != y.len() {
            return false;
        }
        let mut i: usize = 0;
        while i < x.len()
            invariant
                i <= x@.len(),
                x@ == self.folded(a@),
                y@ == self.folded(b@),
                x@.len() == y@.len(),
                forall|k: int| 0 <= k < i ==> x@[k] == y@[k],
            decreases x@.len() - i,
        {
            if x[i] != y[i] {
                return false;
            }
            i += 1;
        }
        assert(x@ =~= y@);
        true
    }
}

/// Paths whose components go by the same names share their handle-table key.
pub proof fn law_same_names_same_key(p: NamePolicy, a: Seq<Seq<char>>, b: Seq<Seq<char>>)
    requires
        a.len() == b.len(),
        forall|i: int| 0 <= i < a.len() ==> p.same_name(#[trigger] a[i], b[i]),
    ensures
        p.key_of(a) == p.key_of(b),
    decreases a.len(),
{
    if a.len() == 1 {
        assert(p.same_name(a[0], b[0]));
    } else if a.len() > 1 {
        assert forall|i: int| 0 <= i < a.drop_last().len() implies p.same_name(
            #[trigger] a.drop_last()[i],
            b.drop_last()[i],
        ) by {
            assert(p.same_name(a[i], b[i]));
        }
        law_same_names_same_key(p, a.drop_last(), b.drop_last());
        assert(p.same_name(a[a.len() - 1], b[a.len() - 1]));
    }
}

/// Folding never makes a separator out of another unit, nor another unit out
/// of a separator.
proof fn lemma_fold_keeps_separators(p: NamePolicy, u: u16)
    requires
        p.wf(),
    ensures
        is_separator_unit(p.folded_unit(u) as int) ==> p.folded_unit(u) == u,
{
    match p {
        NamePolicy::Ascii => {},
        NamePolicy::Upcase(t) => {
            if exists|i: int| 0 <= i < t@.len() && (#[trigger] t@[i]).0 == u {
                let i = choose|i: int| 0 <= i < t@.len() && (#[trigger] t@[i]).0 == u;
                lemma_mapped_hit(t@, u, i);
            } else {
                lemma_mapped_miss(t@, u);
            }
        },
    }
}

/// The UTF-16 form of a component holds no separator.
proof fn lemma_component_units(c: Seq<char>)
    requires
        forall|k: int| 0 <= k < c.len() ==> !crate::path::is_separator(#[trigger] c[k]),
    ensures
        forall|k: int|
            0 <= k < utf16_of(c).len() ==> !is_separator_unit((#[trigger] utf16_of(c)[k]) as int),
    decreases c.len(),
{
    if c.len() > 0 {
        let rest = c.drop_first();
        assert forall|k: int| 0 <= k < rest.len() implies !crate::path::is_separator(
            #[trigger] rest[k],
        ) by {
            assert(rest[k] == c[k + 1]);
        }
        lemma_component_units(rest);
        let head = units_of_char(c.first());
        let v = c.first() as int;
        lemma_char_is_scalar(c.first());
        assert(!crate::path::is_separator(c[0]));
        assert(v != 0x2F && v != 0x5C);
        if v >= 0x1_0000 {
            assert(0 <= (v - 0x1_0000) / 0x400 < 0x400);
        }
        assert forall|k: int| 0 <= k < utf16_of(c).len() implies !is_separator_unit(
            (#[trigger] utf16_of(c)[k]) as int,
        ) by {
            if k < head.len() {
                assert(utf16_of(c)[k] == head[k]);
            } else {
                assert(utf16_of(c)[k] == utf16_of(rest)[k - head.len()]);
            }
        }
    }
}

/// The folded form of a component holds no separator and is not empty.
pub proof fn lemma_folded_component(p: NamePolicy, c: Seq<char>)
    requires
        p.wf(),
        is_component(c),
    ensures
        p.folded(c).len() > 0,
        forall|k: int| 0 <= k < p.folded(c).len() ==> (#[trigger] p.folded(c)[k]) != KEY_SEPARATOR,
{
    lemma_component_units(c);
    crate::text::lemma_utf16_len(c);
    assert forall|k: int| 0 <= k < p.folded(c).len() implies (#[trigger] p.folded(c)[k])
        != KEY_SEPARATOR by {
        lemma_fold_keeps_separators(p, utf16_of(c)[k]);
        assert(!is_separator_unit(utf16_of(c)[k] as int));
    }
}

/// Paths that share their handle-table key have components of the same
/// names: no folding can make two different paths collide.
pub proof fn law_same_key_same_names(p: NamePolicy, a: Seq<Seq<char>>, b: Seq<Seq<char>>)
    requires
        p.wf(),
        forall|i: int| 0 <= i < a.len() ==> is_component(#[trigger] a[i]),
        forall|i: int| 0 <= i < b.len() ==> is_component(#[trigger] b[i]),
        p.key_of(a) == p.key_of(b),
    ensures
        a.len() == b.len(),
        forall|i: int| 0 <= i < a.len() ==> p.same_name(#[trigger] a[i], b[i]),
    decreases a.len() + b.len(),
{
    let k = p.key_of(a);
    if a.len() > 0 {
        assert(is_component(a[a.len() - 1]));
        lemma_folded_component(p, a.last());
        lemma_key_splits(p, a);
    }
    if b.len() > 0 {
        assert(is_component(b[b.len() - 1]));
        lemma_folded_component(p, b.last());
        lemma_key_splits(p, b);
    }
    if a.len() > 0 && b.len() > 0 {
        let (fa, fb) = (p.folded(a.last()), p.folded(b.last()));
        lemma_last_part(k, fa, fb, a.len() == 1, b.len() == 1);
        let (ra, rb) = (a.drop_last(), b.drop_last());
        if a.len() > 1 {
            assert(p.key_of(ra) =~= k.subrange(0, k.len() - fa.len() - 1));
            assert(p.key_of(rb) =~= k.subrange(0, k.len() - fb.len() - 1));
        }
        assert forall|i: int| 0 <= i < ra.len() implies is_component(#[trigger] ra[i]) by {
            assert(is_component(a[i]));
        }
        assert forall|i: int| 0 <= i < rb.len() implies is_component(#[trigger] rb[i]) by {
            assert(is_component(b[i]));
        }
        law_same_key_same_names(p, ra, rb);
        assert forall|i: int| 0 <= i < a.len() implies p.same_name(#[trigger] a[i], b[i]) by {
            if i < ra.len() {
                assert(p.same_name(ra[i], rb[i]));
            }
        }
    }
}

/// A key ends with the folded form of its last component, after a separator
/// if it has more than one.
proof fn lemma_key_splits(p: NamePolicy, a: Seq<Seq<char>>)
    requires
        a.len() > 0,
    ensures
        ({
            let k = p.key_of(a);
            let f = p.folded(a.last());
            &&& a.len() == 1 ==> k == f
            &&& a.len() > 1 ==> k == p.key_of(a.drop_last()).push(KEY_SEPARATOR) + f
        }),
{
}

/// Where a sequence ends with two parts free of separators, each preceded by
/// a separator or by nothing, the two are the same.
proof fn lemma_last_part(k: Seq<u16>, fa: Seq<u16>, fb: Seq<u16>, a_whole: bool, b_whole: bool)
    requires
        forall|i: int| 0 <= i < fa.len() ==> (#[trigger] fa[i]) != KEY_SEPARATOR,
        forall|i: int| 0 <= i < fb.len() ==> (#[trigger] fb[i]) != KEY_SEPARATOR,
        a_whole ==> k == fa,
        !a_whole ==> exists|x: Seq<u16>| k == #[trigger] x.push(KEY_SEPARATOR) + fa,
        b_whole ==> k == fb,
        !b_whole ==> exists|x: Seq<u16>| k == #[trigger] x.push(KEY_SEPARATOR) + fb,
    ensures
        fa == fb,
        a_whole == b_whole,
{
    let na = k.len() - fa.len();
    let nb = k.len() - fb.len();
    if !a_whole {
        let x = choose|x: Seq<u16>| k == #[trigger] x.push(KEY_SEPARATOR) + fa;
        assert(k[na - 1] == KEY_SEPARATOR);
    }
    if !b_whole {
        let x = choose|x: Seq<u16>| k == #[trigger] x.push(KEY_SEPARATOR) + fb;
        assert(k[nb - 1] == KEY_SEPARATOR);
    }
    assert forall|i: int| na <= i < k.len() implies k[i] == fa[i - na] by {}
    assert forall|i: int| nb <= i < k.len() implies k[i] == fb[i - nb] by {}
    if na < nb {
        assert(k[nb - 1] == fa[nb - 1 - na]);
    } else if nb < na {
        assert(k[na - 1] == fb[na - 1 - nb]);
    }
    assert(na == nb);
    assert forall|i: int| 0 <= i < fa.len() implies fa[i] == fb[i] by {
        assert(k[na + i] == fa[na + i - na]);
        assert(k[nb + i] == fb[nb + i - nb]);
    }
    assert(fa =~= fb);
}

/// Name equality is an equivalence relation.
pub proof fn law_same_name_equivalence(p: NamePolicy, a: Seq<char>, b: Seq<char>, c: Seq<char>)
    ensures
        p.same_name(a, a),
        p.same_name(a, b) ==> p.same_name(b, a),
        p.same_name(a, b) && p.same_name(b, c) ==> p.same_name(a, c),
{
}

} // verus!
