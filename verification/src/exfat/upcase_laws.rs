//! What a stored up-case table means.

use vstd::prelude::*;

use super::upcase::{law_mappings_clean, mappings};
use crate::bytes::le16;
use crate::error::FsError;
use crate::name::{lemma_mapped_hit, lemma_mapped_miss, NamePolicy};

verus! {

/// What a stored table says in one place.
pub enum TableItem {
    /// The next unit folds to this one.
    To(u16),
    /// As many of the next units stand for themselves.
    Same(u16),
}

/// The bytes of one item: a literal word, or the marker and a count.
pub open spec fn item_bytes(item: TableItem) -> Seq<u8> {
    match item {
        TableItem::To(w) => seq![(w % 0x100) as u8, (w / 0x100) as u8],
        TableItem::Same(n) => seq![0xFFu8, 0xFFu8, (n % 0x100) as u8, (n / 0x100) as u8],
    }
}

/// The bytes of a table.
pub open spec fn table_bytes(items: Seq<TableItem>) -> Seq<u8>
    decreases items.len(),
{
    if items.len() == 0 {
        seq![]
    } else {
        table_bytes(items.drop_last()) + item_bytes(items.last())
    }
}

/// How many units the items speak of: one for each literal word, and the count
/// for each marker.
pub open spec fn units_spoken_of(items: Seq<TableItem>) -> int
    decreases items.len(),
{
    if items.len() == 0 {
        0
    } else {
        units_spoken_of(items.drop_last()) + match items.last() {
            TableItem::To(_) => 1,
            TableItem::Same(n) => n as int,
        }
    }
}

/// Item `k` says that the unit `u` folds to `v`: it is the word `v`, and the
/// items before it speak of the `u` units below `u`.
pub open spec fn says(items: Seq<TableItem>, k: int, u: u16, v: u16) -> bool {
    &&& 0 <= k < items.len()
    &&& items[k] == TableItem::To(v)
    &&& units_spoken_of(items.take(k)) == u
}

/// Item `k` folds a path separator elsewhere, or something else to one.
pub open spec fn touches_separator(items: Seq<TableItem>, k: int) -> bool {
    exists|u: u16, v: u16|
        #![trigger says(items, k, u, v)]
        says(items, k, u, v) && u != v && (u == 0x2F || u == 0x5C || v == 0x2F || v == 0x5C)
}

/// No literal word looks like the marker.
pub open spec fn literals_plain(items: Seq<TableItem>) -> bool {
    forall|k: int| 0 <= k < items.len() ==> #[trigger] items[k] != TableItem::To(0xFFFF)
}

/// The items before a place speak of no more units than those before a later one.
proof fn lemma_units_grow(items: Seq<TableItem>, k: int, j: int)
    requires
        0 <= k <= j <= items.len(),
    ensures
        0 <= units_spoken_of(items.take(k)) <= units_spoken_of(items.take(j)),
    decreases j - k, k,
{
    if k < j {
        assert(items.take(j).drop_last() =~= items.take(j - 1));
        lemma_units_grow(items, k, j - 1);
    } else if k > 0 {
        assert(items.take(k).drop_last() =~= items.take(k - 1));
        lemma_units_grow(items, k - 1, k - 1);
    }
}

/// A table begins with the bytes of its first items.
proof fn lemma_table_starts(items: Seq<TableItem>, k: int)
    requires
        0 <= k <= items.len(),
    ensures
        table_bytes(items.take(k)).is_prefix_of(table_bytes(items)),
    decreases items.len(),
{
    if k < items.len() {
        lemma_table_starts(items.drop_last(), k);
        assert(items.drop_last().take(k) =~= items.take(k));
        let (a, b, c) = (
            table_bytes(items.take(k)),
            table_bytes(items.drop_last()),
            table_bytes(items),
        );
        assert(b =~= c.subrange(0, b.len() as int));
        assert(a =~= c.subrange(0, a.len() as int));
    } else {
        assert(items.take(k) =~= items);
    }
}

/// The item at its place in the table.
proof fn lemma_item_in_place(items: Seq<TableItem>, k: int)
    requires
        0 <= k < items.len(),
    ensures
        ({
            let bytes = table_bytes(items);
            let at = table_bytes(items.take(k)).len() as int;
            let next = table_bytes(items.take(k + 1)).len() as int;
            &&& next <= bytes.len()
            &&& match items[k] {
                TableItem::To(w) => next == at + 2 && le16(bytes, at) == w,
                TableItem::Same(n) => next == at + 4 && le16(bytes, at) == 0xFFFF && le16(
                    bytes,
                    at + 2,
                ) == n,
            }
        }),
{
    let bytes = table_bytes(items);
    let before = table_bytes(items.take(k));
    let upto = table_bytes(items.take(k + 1));
    assert(items.take(k + 1).drop_last() =~= items.take(k));
    assert(items.take(k + 1).last() == items[k]);
    lemma_table_starts(items, k + 1);
    let it = item_bytes(items[k]);
    let at = before.len() as int;
    assert forall|i: int| 0 <= i < it.len() implies bytes[at + i] == #[trigger] it[i] by {
        assert(upto[at + i] == it[i]);
    }
    assert(bytes[at + 0] == it[0]);
    assert(bytes[at + 1] == it[1]);
    if let TableItem::Same(_) = items[k] {
        assert(bytes[at + 2] == it[2]);
        assert(bytes[at + 3] == it[3]);
    }
}

/// Decoding from item `k` on gives what the items from there on say.
spec fn decodes_from(
    items: Seq<TableItem>,
    k: int,
    r: Result<Seq<(u16, u16)>, FsError<()>>,
) -> bool {
    match r {
        Ok(t) => {
            &&& forall|u: u16, v: u16|
                #![trigger t.contains((u, v))]
                t.contains((u, v)) ==> u != v && exists|j: int| k <= j && #[trigger] says(items, j, u, v)
            &&& forall|j: int, u: u16, v: u16|
                k <= j && #[trigger] says(items, j, u, v) && u != v ==> t.contains((u, v))
            &&& forall|j: int| k <= j ==> !#[trigger] touches_separator(items, j)
        },
        Err(_) => exists|j: int| k <= j && #[trigger] touches_separator(items, j),
    }
}

/// Items behind one that is past the last unit say nothing.
proof fn lemma_nothing_said(items: Seq<TableItem>, k: int)
    requires
        0 <= k <= items.len(),
        units_spoken_of(items.take(k)) >= 0x1_0000,
    ensures
        forall|j: int, u: u16, v: u16| k <= j ==> !#[trigger] says(items, j, u, v),
{
    assert forall|j: int, u: u16, v: u16| k <= j implies !#[trigger] says(items, j, u, v) by {
        if j < items.len() {
            lemma_units_grow(items, k, j);
        }
    }
}

proof fn lemma_decodes_from(items: Seq<TableItem>, k: int)
    requires
        literals_plain(items),
        0 <= k <= items.len(),
    ensures
        decodes_from(
            items,
            k,
            mappings(
                table_bytes(items),
                table_bytes(items.take(k)).len() as int,
                units_spoken_of(items.take(k)),
            ),
        ),
    decreases items.len() - k,
{
    let bytes = table_bytes(items);
    let at = table_bytes(items.take(k)).len() as int;
    let cp = units_spoken_of(items.take(k));
    let r = mappings(bytes, at, cp);
    lemma_units_grow(items, k, k);
    if k == items.len() {
        assert(items.take(k) =~= items);
        assert(r == Ok::<Seq<(u16, u16)>, FsError<()>>(seq![]));
    } else if cp >= 0x1_0000 {
        lemma_nothing_said(items, k);
        assert(r == Ok::<Seq<(u16, u16)>, FsError<()>>(seq![]));
    } else {
        lemma_item_in_place(items, k);
        lemma_decodes_from(items, k + 1);
        assert(items.take(k + 1).drop_last() =~= items.take(k));
        assert(items.take(k + 1).last() == items[k]);
        let next = table_bytes(items.take(k + 1)).len() as int;
        let rest = mappings(bytes, next, units_spoken_of(items.take(k + 1)));
        match items[k] {
            TableItem::Same(n) => {
                assert(r == rest);
                assert forall|j: int, u: u16, v: u16| k <= j && #[trigger] says(items, j, u, v) implies k
                    + 1 <= j by {}
                assert forall|j: int| k <= j && #[trigger] touches_separator(items, j) implies k + 1
                    <= j by {}
            },
            TableItem::To(w) => {
                lemma_decodes_literal(items, k, w, rest, r);
            },
        }
    }
}

/// The step over a literal word.
proof fn lemma_decodes_literal(
    items: Seq<TableItem>,
    k: int,
    w: u16,
    rest: Result<Seq<(u16, u16)>, FsError<()>>,
    r: Result<Seq<(u16, u16)>, FsError<()>>,
)
    requires
        0 <= k < items.len(),
        items[k] == TableItem::To(w),
        0 <= units_spoken_of(items.take(k)) < 0x1_0000,
        decodes_from(items, k + 1, rest),
        ({
            let cp = units_spoken_of(items.take(k));
            if w == cp {
                r == rest
            } else if cp == 0x2F || cp == 0x5C || w == 0x2F || w == 0x5C {
                r is Err
            } else {
                r == (match rest {
                    Err(e) => Err(e),
                    Ok(t) => Ok::<Seq<(u16, u16)>, FsError<()>>(seq![(cp as u16, w)] + t),
                })
            }
        }),
    ensures
        decodes_from(items, k, r),
{
    let c = units_spoken_of(items.take(k)) as u16;
    assert(says(items, k, c, w));
    if w != c && (c == 0x2F || c == 0x5C || w == 0x2F || w == 0x5C) {
        assert(touches_separator(items, k));
    } else {
        assert(!touches_separator(items, k));
        match rest {
            Err(_) => {
                let j = choose|j: int| k + 1 <= j && #[trigger] touches_separator(items, j);
                assert(touches_separator(items, j));
            },
            Ok(t) => {
                let all = r->Ok_0;
                assert forall|u: u16, v: u16| #[trigger] all.contains((u, v)) implies u != v
                    && exists|j: int| k <= j && #[trigger] says(items, j, u, v) by {
                    if w != c && (u, v) == (c, w) {
                        assert(says(items, k, u, v));
                    } else {
                        let i = choose|i: int| 0 <= i < all.len() && all[i] == (u, v);
                        if w != c {
                            assert(all[i] == t[i - 1]);
                        }
                        assert(t.contains((u, v)));
                        let j = choose|j: int| k + 1 <= j && #[trigger] says(items, j, u, v);
                        assert(says(items, j, u, v));
                    }
                }
                assert forall|j: int, u: u16, v: u16|
                    k <= j && #[trigger] says(items, j, u, v) && u != v implies all.contains((u, v)) by {
                    if j == k {
                        assert(all[0] == (u, v));
                    } else {
                        assert(t.contains((u, v)));
                        let i = choose|i: int| 0 <= i < t.len() && t[i] == (u, v);
                        if w != c {
                            assert(all[i + 1] == (u, v));
                        }
                    }
                }
            },
        }
    }
}

/// A stored table spells out one mapping for each literal word that is not the
/// very unit it stands for: the unit whose number is how many units the items
/// before it speak of, one for each literal word and the count for each marker,
/// maps to the word. The table is refused if and only if such a mapping touches a
/// path separator.
pub proof fn law_table_spells_out_mappings(items: Seq<TableItem>, u: u16, v: u16)
    requires
        literals_plain(items),
    ensures
        match mappings(table_bytes(items), 0, 0) {
            Ok(t) => {
                &&& t.contains((u, v)) <==> u != v && exists|k: int| #[trigger] says(items, k, u, v)
                &&& forall|k: int| !#[trigger] touches_separator(items, k)
            },
            Err(_) => exists|k: int| #[trigger] touches_separator(items, k),
        },
{
    lemma_decodes_from(items, 0);
    assert(items.take(0) =~= Seq::<TableItem>::empty());
}

/// A name policy made from a stored table folds each unit as the table says: to
/// the literal word that stands for the unit, and to itself where no word does,
/// be it skipped by a count or past the end of the table.
pub proof fn law_stored_table_folds(items: Seq<TableItem>, p: NamePolicy, k: int, u: u16, v: u16)
    requires
        literals_plain(items),
        p matches NamePolicy::Upcase(t) && mappings(table_bytes(items), 0, 0) == Ok::<
            Seq<(u16, u16)>,
            FsError<()>,
        >(t@),
    ensures
        says(items, k, u, v) ==> p.folded_unit(u) == v,
        (forall|j: int, w: u16| !#[trigger] says(items, j, u, w)) ==> p.folded_unit(u) == u,
{
    let bytes = table_bytes(items);
    let t = mappings(bytes, 0, 0)->Ok_0;
    lemma_decodes_from(items, 0);
    assert(items.take(0) =~= Seq::<TableItem>::empty());
    law_mappings_clean(bytes, 0, 0);
    if says(items, k, u, v) {
        if u == v {
            assert forall|i: int| 0 <= i < t.len() implies #[trigger] t[i].0 != u by {
                if t[i].0 == u {
                    let w = t[i].1;
                    assert(t.contains((u, w)));
                    let j = choose|j: int| 0 <= j && #[trigger] says(items, j, u, w);
                    lemma_one_item_speaks(items, j, k, u, w, v);
                }
            }
            lemma_mapped_miss(t, u);
        } else {
            assert(t.contains((u, v)));
            let i = choose|i: int| 0 <= i < t.len() && t[i] == (u, v);
            lemma_mapped_hit(t, u, i);
        }
    }
    if forall|j: int, w: u16| !#[trigger] says(items, j, u, w) {
        assert forall|i: int| 0 <= i < t.len() implies #[trigger] t[i].0 != u by {
            if t[i].0 == u {
                assert(t.contains((u, t[i].1)));
            }
        }
        lemma_mapped_miss(t, u);
    }
}

/// No two words speak of one unit.
proof fn lemma_one_item_speaks(items: Seq<TableItem>, j: int, k: int, u: u16, v: u16, w: u16)
    requires
        says(items, j, u, v),
        says(items, k, u, w),
    ensures
        j == k,
        v == w,
{
    if j < k {
        lemma_units_grow(items, j + 1, k);
        assert(items.take(j + 1).drop_last() =~= items.take(j));
    } else if k < j {
        lemma_units_grow(items, k + 1, j);
        assert(items.take(k + 1).drop_last() =~= items.take(k));
    }
}

/// A table and its compressed form mean the same: a stretch of literal words for
/// units that stand for themselves can be replaced by the marker and the length
/// of the stretch.
pub proof fn law_identity_run_compresses(
    before: Seq<TableItem>,
    run: Seq<TableItem>,
    behind: Seq<TableItem>,
    p: NamePolicy,
    q: NamePolicy,
    u: u16,
)
    requires
        literals_plain(before + run + behind),
        run.len() <= 0xFFFF,
        forall|i: int| 0 <= i < run.len() ==> (#[trigger] run[i] matches TableItem::To(w) && w
            == units_spoken_of(before) + i),
        p matches NamePolicy::Upcase(t) && mappings(table_bytes(before + run + behind), 0, 0)
            == Ok::<Seq<(u16, u16)>, FsError<()>>(t@),
        q matches NamePolicy::Upcase(t) && mappings(
            table_bytes(before.push(TableItem::Same(run.len() as u16)) + behind),
            0,
            0,
        ) == Ok::<Seq<(u16, u16)>, FsError<()>>(t@),
    ensures
        p.folded_unit(u) == q.folded_unit(u),
{
    let a = before + run + behind;
    let c = before.push(TableItem::Same(run.len() as u16)) + behind;
    let (nb, nr) = (before.len() as int, run.len() as int);
    assert forall|k: int| 0 <= k < c.len() implies #[trigger] c[k] != TableItem::To(0xFFFF) by {
        if k < nb {
            assert(c[k] == a[k]);
        } else if k > nb {
            assert(c[k] == a[k - 1 + nr]);
        }
    }
    lemma_units_joined(before, run);
    lemma_run_units(before, run, nr);
    assert(run.take(nr) =~= run);
    // A word of the compressed table is one of the other, for the same unit.
    assert forall|k: int, w: u16| #[trigger] says(c, k, u, w) implies says(
        a,
        (if k < nb {
            k
        } else {
            k - 1 + nr
        }),
        u,
        w,
    ) by {
        if k < nb {
            assert(c.take(k) =~= a.take(k));
        } else {
            let rest = behind.take(k - nb - 1);
            assert(c.take(k) =~= before.push(TableItem::Same(run.len() as u16)) + rest);
            assert(a.take(k - 1 + nr) =~= (before + run) + rest);
            lemma_units_joined(before.push(TableItem::Same(run.len() as u16)), rest);
            lemma_units_joined(before + run, rest);
            assert(before.push(TableItem::Same(run.len() as u16)).drop_last() =~= before);
        }
    }
    if exists|k: int, w: u16| #[trigger] says(c, k, u, w) {
        let (k, w) = choose|k: int, w: u16| #[trigger] says(c, k, u, w);
        law_stored_table_folds(c, q, k, u, w);
        let j = if k < nb {
            k
        } else {
            k - 1 + nr
        };
        assert(says(a, j, u, w));
        law_stored_table_folds(a, p, j, u, w);
    } else {
        law_stored_table_folds(c, q, 0, u, u);
        if exists|k: int, w: u16| #[trigger] says(a, k, u, w) {
            let (k, w) = choose|k: int, w: u16| #[trigger] says(a, k, u, w);
            law_stored_table_folds(a, p, k, u, w);
            if k < nb {
                assert(c.take(k) =~= a.take(k));
                assert(says(c, k, u, w));
            } else if k < nb + nr {
                assert(a.take(k) =~= before + run.take(k - nb));
                lemma_units_joined(before, run.take(k - nb));
                lemma_run_units(before, run, k - nb);
                assert(a[k] == run[k - nb]);
                assert(w == u);
            } else {
                let rest = behind.take(k - nb - nr);
                assert(a.take(k) =~= (before + run) + rest);
                assert(c.take(k + 1 - nr) =~= before.push(TableItem::Same(run.len() as u16)) + rest);
                lemma_units_joined(before.push(TableItem::Same(run.len() as u16)), rest);
                lemma_units_joined(before + run, rest);
                assert(before.push(TableItem::Same(run.len() as u16)).drop_last() =~= before);
                assert(says(c, k + 1 - nr, u, w));
            }
        } else {
            law_stored_table_folds(a, p, 0, u, u);
        }
    }
}

/// Items one behind the other speak of the units of both.
proof fn lemma_units_joined(a: Seq<TableItem>, b: Seq<TableItem>)
    ensures
        units_spoken_of(a + b) == units_spoken_of(a) + units_spoken_of(b),
    decreases b.len(),
{
    if b.len() == 0 {
        assert(a + b =~= a);
    } else {
        lemma_units_joined(a, b.drop_last());
        assert((a + b).drop_last() =~= a + b.drop_last());
    }
}

/// Literal words speak of one unit each.
proof fn lemma_run_units(before: Seq<TableItem>, run: Seq<TableItem>, n: int)
    requires
        forall|i: int| 0 <= i < run.len() ==> (#[trigger] run[i] matches TableItem::To(w) && w
            == units_spoken_of(before) + i),
        0 <= n <= run.len(),
    ensures
        units_spoken_of(run.take(n)) == n,
    decreases n,
{
    if n > 0 {
        lemma_run_units(before, run, n - 1);
        assert(run.take(n).drop_last() =~= run.take(n - 1));
        assert(run.take(n).last() == run[n - 1]);
    }
}

} // verus!
