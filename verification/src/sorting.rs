//! The three orders of a listing (largest first, by name, newest first),
//! each a stable sort.

use vstd::prelude::*;
use crate::app::SortMode;
use crate::scanner::{FileEntry, FileEntryView, entry_views};
use crate::text::{
    chars_less, chars_less_exec, chars_of, lemma_chars_less_irreflexive,
    lemma_chars_less_total, lemma_chars_less_transitive,
};

verus! {

/// The modification time by which entries are ordered; 0 when unknown.
pub open spec fn mtime(e: FileEntryView) -> u64 {
    match e.modified {
        Some(t) => t,
        None => 0,
    }
}

/// `a` goes strictly before `b` in the order `mode`: larger size first, name
/// in code-point order, or later modification first.
pub open spec fn precedes(a: FileEntryView, b: FileEntryView, mode: SortMode) -> bool {
    match mode {
        SortMode::Size => a.size > b.size,
        SortMode::Name => chars_less(a.name, b.name),
        SortMode::Modified => mtime(a) > mtime(b),
    }
}

/// Where `x` goes in `r`: before the first element that it precedes.
pub open spec fn insert_pos(r: Seq<FileEntryView>, x: FileEntryView, mode: SortMode) -> int
    decreases r.len(),
{
    if r.len() == 0 {
        0
    } else if precedes(x, r[0], mode) {
        0
    } else {
        1 + insert_pos(r.drop_first(), x, mode)
    }
}

/// `s` in the order `mode`, entries that neither precedes the other keeping
/// their relative order.
pub open spec fn sorted_by(s: Seq<FileEntryView>, mode: SortMode) -> Seq<FileEntryView>
    decreases s.len(),
{
    if s.len() == 0 {
        s
    } else {
        let r = sorted_by(s.drop_last(), mode);
        r.insert(insert_pos(r, s.last(), mode), s.last())
    }
}

/// Whether `a` goes strictly before `b` in the order `mode`.
pub fn precedes_exec(a: &FileEntry, b: &FileEntry, mode: SortMode) -> (r: bool)
    ensures
        r == precedes(a@, b@, mode),
{
    match mode {
        SortMode::Size => a.size > b.size,
        SortMode::Name => {
            let an = chars_of(a.name.as_str());
            let bn = chars_of(b.name.as_str());
            chars_less_exec(&an, &bn)
        },
        SortMode::Modified => {
            let ta: u64 = match a.modified {
                Some(t) => t,
                None => 0,
            };
            let tb: u64 = match b.modified {
                Some(t) => t,
                None => 0,
            };
            ta > tb
        },
    }
}

proof fn lemma_insert_pos(r: Seq<FileEntryView>, x: FileEntryView, mode: SortMode, j: int)
    requires
        0 <= j <= r.len(),
        forall|k: int| 0 <= k < j ==> !precedes(x, #[trigger] r[k], mode),
        j == r.len() || precedes(x, r[j], mode),
    ensures
        insert_pos(r, x, mode) == j,
    decreases j,
{
    if j > 0 {
        assert(!precedes(x, r[0], mode));
        lemma_insert_pos(r.drop_first(), x, mode, j - 1);
    }
}

// ── What the order is ─────────────────────────────────────────────────

/// Neither of `a`, `b` goes before the other: they sort as equals.
pub open spec fn same_key(a: FileEntryView, b: FileEntryView, mode: SortMode) -> bool {
    !precedes(a, b, mode) && !precedes(b, a, mode)
}

/// Every later element of `r` may stand where it stands: none precedes an
/// earlier one.
pub open spec fn is_sorted_by(r: Seq<FileEntryView>, mode: SortMode) -> bool {
    forall|i: int, j: int| 0 <= i < j < r.len() ==> !precedes(#[trigger] r[j], #[trigger] r[i], mode)
}

proof fn lemma_precedes_asymmetric(a: FileEntryView, b: FileEntryView, mode: SortMode)
    requires
        precedes(a, b, mode),
    ensures
        !precedes(b, a, mode),
{
    if mode == SortMode::Name && chars_less(b.name, a.name) {
        lemma_chars_less_transitive(a.name, b.name, a.name);
        lemma_chars_less_irreflexive(a.name);
    }
}

proof fn lemma_precedes_transitive(a: FileEntryView, b: FileEntryView, c: FileEntryView, mode: SortMode)
    requires
        precedes(a, b, mode),
        precedes(b, c, mode),
    ensures
        precedes(a, c, mode),
{
    if mode == SortMode::Name {
        lemma_chars_less_transitive(a.name, b.name, c.name);
    }
}

/// Whatever `c` is, it comes after `a` or before `b` when `a` precedes `b`.
proof fn lemma_precedes_splits(a: FileEntryView, b: FileEntryView, c: FileEntryView, mode: SortMode)
    requires
        precedes(a, b, mode),
    ensures
        precedes(a, c, mode) || precedes(c, b, mode),
{
    if mode == SortMode::Name {
        if c.name != a.name && c.name != b.name {
            lemma_chars_less_total(a.name, c.name);
            if chars_less(c.name, a.name) {
                lemma_chars_less_transitive(c.name, a.name, b.name);
            }
        }
    }
}

/// The position at which an entry is inserted lies within the sequence.
pub proof fn lemma_insert_pos_bounds(r: Seq<FileEntryView>, x: FileEntryView, mode: SortMode)
    ensures
        0 <= insert_pos(r, x, mode) <= r.len(),
{
    lemma_insert_pos_facts(r, x, mode);
}

proof fn lemma_insert_pos_facts(r: Seq<FileEntryView>, x: FileEntryView, mode: SortMode)
    ensures
        0 <= insert_pos(r, x, mode) <= r.len(),
        forall|k: int| 0 <= k < insert_pos(r, x, mode) ==> !precedes(x, #[trigger] r[k], mode),
        insert_pos(r, x, mode) < r.len() ==> precedes(x, r[insert_pos(r, x, mode)], mode),
    decreases r.len(),
{
    if r.len() > 0 && !precedes(x, r[0], mode) {
        lemma_insert_pos_facts(r.drop_first(), x, mode);
        assert forall|k: int| 0 <= k < insert_pos(r, x, mode) implies !precedes(x, #[trigger] r[k], mode) by {
            if k > 0 {
                assert(r[k] == r.drop_first()[k - 1]);
            }
        }
    }
}

proof fn lemma_sorted_after_pos(r: Seq<FileEntryView>, x: FileEntryView, mode: SortMode, k: int)
    requires
        is_sorted_by(r, mode),
        insert_pos(r, x, mode) <= k < r.len(),
    ensures
        precedes(x, r[k], mode),
{
    lemma_insert_pos_facts(r, x, mode);
    let p = insert_pos(r, x, mode);
    if k > p {
        assert(!precedes(r[k], r[p], mode));
        lemma_precedes_splits(x, r[p], r[k], mode);
    }
}

/// The result of sorting is in order.
pub proof fn lemma_sorted_by_is_sorted(s: Seq<FileEntryView>, mode: SortMode)
    ensures
        is_sorted_by(sorted_by(s, mode), mode),
        sorted_by(s, mode).len() == s.len(),
    decreases s.len(),
{
    if s.len() > 0 {
        let r = sorted_by(s.drop_last(), mode);
        let x = s.last();
        lemma_sorted_by_is_sorted(s.drop_last(), mode);
        lemma_insert_pos_facts(r, x, mode);
        let p = insert_pos(r, x, mode);
        let t = r.insert(p, x);
        assert forall|i: int, j: int| 0 <= i < j < t.len() implies !precedes(#[trigger] t[j], #[trigger] t[i], mode) by {
            if j < p {
            } else if j == p {
                assert(t[i] == r[i]);
            } else if i == p {
                assert(t[j] == r[j - 1]);
                lemma_sorted_after_pos(r, x, mode, j - 1);
                lemma_precedes_asymmetric(x, r[j - 1], mode);
            } else if i < p {
                assert(t[j] == r[j - 1]);
            } else {
                assert(t[j] == r[j - 1]);
                assert(t[i] == r[i - 1]);
            }
        }
    }
}

/// Sorting keeps every entry, as many times as it occurs.
pub proof fn lemma_sorted_by_permutes(s: Seq<FileEntryView>, mode: SortMode)
    ensures
        sorted_by(s, mode).to_multiset() =~= s.to_multiset(),
    decreases s.len(),
{
    broadcast use vstd::seq_lib::group_to_multiset_ensures;
    if s.len() > 0 {
        let r = sorted_by(s.drop_last(), mode);
        let x = s.last();
        lemma_sorted_by_permutes(s.drop_last(), mode);
        lemma_insert_pos_facts(r, x, mode);
        let p = insert_pos(r, x, mode);
        assert(r.insert(p, x) =~= r.take(p) + seq![x] + r.skip(p));
        assert(r =~= r.take(p) + r.skip(p));
        vstd::seq_lib::lemma_multiset_commutative(r.take(p) + seq![x], r.skip(p));
        vstd::seq_lib::lemma_multiset_commutative(r.take(p), seq![x]);
        vstd::seq_lib::lemma_multiset_commutative(r.take(p), r.skip(p));
        assert(s =~= s.drop_last().push(x));
    }
}

/// The entries that sort as equals to `x`.
pub open spec fn class_of(x: FileEntryView, mode: SortMode) -> spec_fn(FileEntryView) -> bool {
    |y: FileEntryView| same_key(y, x, mode)
}

/// `t` and `u` hold the same entries of each class, in the same order.
pub open spec fn same_classes(t: Seq<FileEntryView>, u: Seq<FileEntryView>, mode: SortMode) -> bool {
    forall|x: FileEntryView| #[trigger] t.filter(class_of(x, mode)) == u.filter(class_of(x, mode))
}

/// Sorting is stable: the entries that sort as equals to `x` come out in
/// the order in which they went in.
pub proof fn lemma_sorted_by_stable(s: Seq<FileEntryView>, mode: SortMode, x: FileEntryView)
    ensures
        sorted_by(s, mode).filter(class_of(x, mode)) =~= s.filter(class_of(x, mode)),
    decreases s.len(),
{
    let pred = class_of(x, mode);
    if s.len() == 0 {
    } else {
        let r = sorted_by(s.drop_last(), mode);
        let e = s.last();
        lemma_sorted_by_stable(s.drop_last(), mode, x);
        lemma_sorted_by_is_sorted(s.drop_last(), mode);
        lemma_insert_pos_facts(r, e, mode);
        let p = insert_pos(r, e, mode);
        let tail = r.skip(p);
        assert(r.insert(p, e) =~= r.take(p) + (seq![e] + tail));
        assert(r =~= r.take(p) + tail);
        vstd::seq::Seq::filter_distributes_over_add(r.take(p), seq![e] + tail, pred);
        vstd::seq::Seq::filter_distributes_over_add(seq![e], tail, pred);
        vstd::seq::Seq::filter_distributes_over_add(r.take(p), tail, pred);
        assert(s =~= s.drop_last().push(e));
        s.drop_last().lemma_filter_push(e, pred);
        Seq::<FileEntryView>::empty().lemma_filter_push(e, pred);
        assert(seq![e] =~= Seq::<FileEntryView>::empty().push(e));
        reveal(Seq::filter);
        if pred(e) {
            assert forall|k: int| 0 <= k < tail.len() implies !pred(#[trigger] tail[k]) by {
                lemma_sorted_after_pos(r, e, mode, k + p);
                assert(tail[k] == r[k + p]);
                if pred(tail[k]) {
                    lemma_precedes_splits(e, tail[k], x, mode);
                }
            }
            tail.lemma_all_neg_filter_empty(pred);
        }
    }
}

/// An entry list already in order is left as it is.
pub proof fn lemma_sorted_by_keeps_sorted(s: Seq<FileEntryView>, mode: SortMode)
    requires
        is_sorted_by(s, mode),
    ensures
        sorted_by(s, mode) == s,
    decreases s.len(),
{
    if s.len() > 0 {
        let d = s.drop_last();
        assert(is_sorted_by(d, mode)) by {
            assert forall|i: int, j: int| 0 <= i < j < d.len() implies !precedes(#[trigger] d[j], #[trigger] d[i], mode) by {
                assert(d[j] == s[j] && d[i] == s[i]);
            }
        }
        lemma_sorted_by_keeps_sorted(d, mode);
        lemma_insert_pos(d, s.last(), mode, d.len() as int);
        assert(d.insert(d.len() as int, s.last()) =~= s);
    }
}


proof fn lemma_prefix_sorted(t: Seq<FileEntryView>, mode: SortMode)
    requires
        is_sorted_by(t, mode),
        t.len() > 0,
    ensures
        is_sorted_by(t.drop_last(), mode),
{
    let d = t.drop_last();
    assert forall|i: int, j: int| 0 <= i < j < d.len() implies !precedes(#[trigger] d[j], #[trigger] d[i], mode) by {
        assert(d[i] == t[i] && d[j] == t[j]);
    }
}

proof fn lemma_class_nonempty(t: Seq<FileEntryView>, u: Seq<FileEntryView>, mode: SortMode)
    requires
        same_classes(t, u, mode),
        u.len() > 0,
    ensures
        t.contains(u.last()),
{
    let b = u.last();
    let c = class_of(b, mode);
    lemma_precedes_irreflexive(b, mode);
    u.lemma_filter_contains(c, u.len() - 1);
    assert(t.filter(c) == u.filter(c));
    t.lemma_filter_contains_rev(c, b);
}

proof fn lemma_precedes_irreflexive(a: FileEntryView, mode: SortMode)
    ensures
        !precedes(a, a, mode),
        same_key(a, a, mode),
{
    if mode == SortMode::Name {
        lemma_chars_less_irreflexive(a.name);
    }
}

proof fn lemma_last_not_before(t: Seq<FileEntryView>, b: FileEntryView, mode: SortMode)
    requires
        is_sorted_by(t, mode),
        t.contains(b),
    ensures
        !precedes(t.last(), b, mode),
{
    let i = choose|i: int| 0 <= i < t.len() && t[i] == b;
    if i == t.len() - 1 {
        lemma_precedes_irreflexive(b, mode);
    } else {
        assert(!precedes(t[t.len() - 1], t[i], mode));
    }
}

/// Two sequences in order that hold the same entries of each class, in the
/// same order, are the same.
pub proof fn lemma_sorted_unique(t: Seq<FileEntryView>, u: Seq<FileEntryView>, mode: SortMode)
    requires
        is_sorted_by(t, mode),
        is_sorted_by(u, mode),
        same_classes(t, u, mode),
    ensures
        t == u,
    decreases t.len() + u.len(),
{
    if t.len() == 0 && u.len() == 0 {
        assert(t =~= u);
    } else if t.len() == 0 {
        lemma_class_nonempty(t, u, mode);
    } else if u.len() == 0 {
        assert(same_classes(u, t, mode)) by {
            assert forall|x: FileEntryView| #[trigger] u.filter(class_of(x, mode)) == t.filter(class_of(x, mode)) by {
                assert(t.filter(class_of(x, mode)) == u.filter(class_of(x, mode)));
            }
        }
        lemma_class_nonempty(u, t, mode);
    } else {
        let a = t.last();
        let b = u.last();
        lemma_class_nonempty(t, u, mode);
        assert(same_classes(u, t, mode)) by {
            assert forall|x: FileEntryView| #[trigger] u.filter(class_of(x, mode)) == t.filter(class_of(x, mode)) by {
                assert(t.filter(class_of(x, mode)) == u.filter(class_of(x, mode)));
            }
        }
        lemma_class_nonempty(u, t, mode);
        lemma_last_not_before(t, b, mode);
        lemma_last_not_before(u, a, mode);
        let c = class_of(a, mode);
        let t1 = t.drop_last();
        let u1 = u.drop_last();
        assert(t =~= t1.push(a));
        assert(u =~= u1.push(b));
        lemma_precedes_irreflexive(a, mode);
        t1.lemma_filter_push(a, c);
        u1.lemma_filter_push(b, c);
        assert(t.filter(c) == u.filter(c));
        assert(t.filter(c).last() == a);
        assert(u.filter(c).last() == b);
        assert(a == b);
        assert(same_classes(t1, u1, mode)) by {
            assert forall|x: FileEntryView| #[trigger] t1.filter(class_of(x, mode)) == u1.filter(class_of(x, mode)) by {
                let cx = class_of(x, mode);
                t1.lemma_filter_push(a, cx);
                u1.lemma_filter_push(a, cx);
                assert(t.filter(cx) == u.filter(cx));
                if cx(a) {
                    assert(t1.filter(cx) =~= t.filter(cx).drop_last());
                    assert(u1.filter(cx) =~= u.filter(cx).drop_last());
                }
            }
        }
        lemma_prefix_sorted(t, mode);
        lemma_prefix_sorted(u, mode);
        lemma_sorted_unique(t1, u1, mode);
    }
}

/// The sorted form of `s` is the one sequence in order that holds the
/// entries of each class of `s` in their order in `s`.
pub proof fn lemma_sorted_by_characterized(s: Seq<FileEntryView>, t: Seq<FileEntryView>, mode: SortMode)
    requires
        is_sorted_by(t, mode),
        same_classes(t, s, mode),
    ensures
        t == sorted_by(s, mode),
{
    let r = sorted_by(s, mode);
    lemma_sorted_by_is_sorted(s, mode);
    assert(same_classes(t, r, mode)) by {
        assert forall|x: FileEntryView| #[trigger] t.filter(class_of(x, mode)) == r.filter(class_of(x, mode)) by {
            lemma_sorted_by_stable(s, mode, x);
            assert(t.filter(class_of(x, mode)) == s.filter(class_of(x, mode)));
        }
    }
    lemma_sorted_unique(t, r, mode);
}


// ── Sorting by merging ───────────────────────────────────────────────

proof fn lemma_same_key_transitive(a: FileEntryView, b: FileEntryView, c: FileEntryView, mode: SortMode)
    requires
        same_key(a, c, mode),
        same_key(b, c, mode),
    ensures
        same_key(a, b, mode),
{
    if precedes(a, b, mode) {
        lemma_precedes_splits(a, b, c, mode);
    }
    if precedes(b, a, mode) {
        lemma_precedes_splits(b, a, c, mode);
    }
}

proof fn lemma_same_key_then_precedes(a: FileEntryView, b: FileEntryView, c: FileEntryView, mode: SortMode)
    requires
        same_key(a, b, mode),
        precedes(b, c, mode),
    ensures
        precedes(a, c, mode),
{
    lemma_precedes_splits(b, c, a, mode);
}

/// `a` and `b`, both in order, merged into one sequence in order; of
/// entries that sort as equals, those of `a` come first.
fn merge(a: &Vec<FileEntry>, b: &Vec<FileEntry>, mode: SortMode) -> (r: Vec<FileEntry>)
    requires
        is_sorted_by(entry_views(a@), mode),
        is_sorted_by(entry_views(b@), mode),
    ensures
        is_sorted_by(entry_views(r@), mode),
        same_classes(entry_views(r@), entry_views(a@) + entry_views(b@), mode),
{
    let ghost sa = entry_views(a@);
    let ghost sb = entry_views(b@);
    let mut out: Vec<FileEntry> = Vec::new();
    let mut i: usize = 0;
    let mut j: usize = 0;
    proof {
        assert forall|x: FileEntryView| #[trigger] entry_views(out@).filter(class_of(x, mode))
            == sa.take(0).filter(class_of(x, mode)) + sb.take(0).filter(class_of(x, mode)) by {
            reveal(Seq::filter);
            assert(entry_views(out@) =~= Seq::<FileEntryView>::empty());
            assert(sa.take(0) =~= Seq::<FileEntryView>::empty());
            assert(sb.take(0) =~= Seq::<FileEntryView>::empty());
            assert(Seq::<FileEntryView>::empty().filter(class_of(x, mode)) =~= Seq::<FileEntryView>::empty());
        }
    }
    while i < a.len() || j < b.len()
        invariant
            sa == entry_views(a@),
            sb == entry_views(b@),
            is_sorted_by(sa, mode),
            is_sorted_by(sb, mode),
            i <= sa.len(),
            j <= sb.len(),
            out@.len() == i + j,
            is_sorted_by(entry_views(out@), mode),
            forall|k: int, p: int|
                0 <= k < out@.len() && i <= p < sa.len() ==> !precedes(
                    #[trigger] sa[p],
                    #[trigger] entry_views(out@)[k],
                    mode,
                ),
            forall|k: int, q: int|
                0 <= k < out@.len() && j <= q < sb.len() ==> !precedes(
                    #[trigger] sb[q],
                    #[trigger] entry_views(out@)[k],
                    mode,
                ),
            forall|q: int, p: int|
                0 <= q < j && i <= p < sa.len() ==> !same_key(#[trigger] sb[q], #[trigger] sa[p], mode),
            forall|x: FileEntryView| #[trigger] entry_views(out@).filter(class_of(x, mode))
                == sa.take(i as int).filter(class_of(x, mode)) + sb.take(j as int).filter(class_of(x, mode)),
        decreases sa.len() + sb.len() - i - j,
    {
        let take_a = if j == b.len() {
            true
        } else if i == a.len() {
            false
        } else {
            !precedes_exec(&b[j], &a[i], mode)
        };
        let ghost before = entry_views(out@);
        if take_a {
            let e = a[i].duplicate();
            let ghost ev = sa[i as int];
            out.push(e);
            proof {
                let o = entry_views(out@);
                assert(o =~= before.push(ev));
                assert forall|k: int, p: int| 0 <= k < o.len() && i + 1 <= p < sa.len() implies !precedes(#[trigger] sa[p], #[trigger] o[k], mode) by {
                    if k < before.len() {
                        assert(o[k] == before[k]);
                    } else {
                        assert(!precedes(sa[p], sa[i as int], mode));
                    }
                }
                assert forall|k: int, q: int| 0 <= k < o.len() && j <= q < sb.len() implies !precedes(#[trigger] sb[q], #[trigger] o[k], mode) by {
                    if k < before.len() {
                        assert(o[k] == before[k]);
                    } else {
                        assert(!precedes(sb[j as int], ev, mode));
                        if precedes(sb[q], ev, mode) {
                            lemma_precedes_splits(sb[q], ev, sb[j as int], mode);
                            if q == j {
                                lemma_precedes_irreflexive(sb[q], mode);
                            }
                        }
                    }
                }
                assert forall|k1: int, k2: int| 0 <= k1 < k2 < o.len() implies !precedes(#[trigger] o[k2], #[trigger] o[k1], mode) by {
                    if k2 < before.len() {
                        assert(o[k1] == before[k1] && o[k2] == before[k2]);
                    } else {
                        assert(o[k1] == before[k1]);
                    }
                }
                assert forall|x: FileEntryView| #[trigger] o.filter(class_of(x, mode))
                    == sa.take(i + 1).filter(class_of(x, mode)) + sb.take(j as int).filter(class_of(x, mode)) by {
                    let c = class_of(x, mode);
                    before.lemma_filter_push(ev, c);
                    assert(sa.take(i + 1) =~= sa.take(i as int).push(ev));
                    sa.take(i as int).lemma_filter_push(ev, c);
                    assert(before.filter(c) == sa.take(i as int).filter(c) + sb.take(j as int).filter(c));
                    if c(ev) {
                        assert forall|q: int| 0 <= q < sb.take(j as int).len() implies !c(#[trigger] sb.take(j as int)[q]) by {
                            assert(sb.take(j as int)[q] == sb[q]);
                            if c(sb[q]) {
                                lemma_same_key_transitive(sb[q], ev, x, mode);
                            }
                        }
                        sb.take(j as int).lemma_all_neg_filter_empty(c);
                        assert(o.filter(c) =~= sa.take(i + 1).filter(c) + sb.take(j as int).filter(c));
                    }
                }
            }
            i = i + 1;
        } else {
            let e = b[j].duplicate();
            let ghost ev = sb[j as int];
            out.push(e);
            proof {
                let o = entry_views(out@);
                assert(o =~= before.push(ev));
                if i < sa.len() {
                    assert(precedes(ev, sa[i as int], mode));
                }
                assert forall|k: int, p: int| 0 <= k < o.len() && i <= p < sa.len() implies !precedes(#[trigger] sa[p], #[trigger] o[k], mode) by {
                    if k < before.len() {
                        assert(o[k] == before[k]);
                    } else {
                        if precedes(sa[p], ev, mode) {
                            lemma_precedes_transitive(sa[p], ev, sa[i as int], mode);
                            if p == i {
                                lemma_precedes_irreflexive(sa[p], mode);
                            }
                        }
                    }
                }
                assert forall|k: int, q: int| 0 <= k < o.len() && j + 1 <= q < sb.len() implies !precedes(#[trigger] sb[q], #[trigger] o[k], mode) by {
                    if k < before.len() {
                        assert(o[k] == before[k]);
                    } else {
                        assert(!precedes(sb[q], sb[j as int], mode));
                    }
                }
                assert forall|k1: int, k2: int| 0 <= k1 < k2 < o.len() implies !precedes(#[trigger] o[k2], #[trigger] o[k1], mode) by {
                    if k2 < before.len() {
                        assert(o[k1] == before[k1] && o[k2] == before[k2]);
                    } else {
                        assert(o[k1] == before[k1]);
                    }
                }
                assert forall|q: int, p: int| 0 <= q < j + 1 && i <= p < sa.len() implies !same_key(#[trigger] sb[q], #[trigger] sa[p], mode) by {
                    if q == j && same_key(sb[q], sa[p], mode) {
                        lemma_same_key_then_precedes(sa[p], ev, sa[i as int], mode);
                        if p == i {
                            lemma_precedes_irreflexive(sa[p], mode);
                        }
                    }
                }
                assert forall|x: FileEntryView| #[trigger] o.filter(class_of(x, mode))
                    == sa.take(i as int).filter(class_of(x, mode)) + sb.take(j + 1).filter(class_of(x, mode)) by {
                    let c = class_of(x, mode);
                    before.lemma_filter_push(ev, c);
                    assert(sb.take(j + 1) =~= sb.take(j as int).push(ev));
                    sb.take(j as int).lemma_filter_push(ev, c);
                    assert(before.filter(c) == sa.take(i as int).filter(c) + sb.take(j as int).filter(c));
                    if c(ev) {
                        assert(o.filter(c) =~= sa.take(i as int).filter(c) + sb.take(j + 1).filter(c));
                    }
                }
            }
            j = j + 1;
        }
    }
    proof {
        assert(sa.take(sa.len() as int) =~= sa);
        assert(sb.take(sb.len() as int) =~= sb);
        assert forall|x: FileEntryView| #[trigger] entry_views(out@).filter(class_of(x, mode))
            == (sa + sb).filter(class_of(x, mode)) by {
            Seq::filter_distributes_over_add(sa, sb, class_of(x, mode));
        }
    }
    out
}

/// The entries `lo..hi` of `v` in the order `mode`, stably.
fn sort_range(v: &Vec<FileEntry>, lo: usize, hi: usize, mode: SortMode) -> (r: Vec<FileEntry>)
    requires
        lo <= hi <= v@.len(),
    ensures
        is_sorted_by(entry_views(r@), mode),
        same_classes(entry_views(r@), entry_views(v@).subrange(lo as int, hi as int), mode),
    decreases hi - lo,
{
    let ghost s = entry_views(v@).subrange(lo as int, hi as int);
    if hi - lo <= 1 {
        let mut r: Vec<FileEntry> = Vec::new();
        if hi - lo == 1 {
            r.push(v[lo].duplicate());
        }
        assert(entry_views(r@) =~= s);
        return r;
    }
    let mid = lo + (hi - lo) / 2;
    let a = sort_range(v, lo, mid, mode);
    let b = sort_range(v, mid, hi, mode);
    let r = merge(&a, &b, mode);
    proof {
        let full = entry_views(v@);
        assert(s =~= full.subrange(lo as int, mid as int) + full.subrange(mid as int, hi as int));
        assert forall|x: FileEntryView| #[trigger] entry_views(r@).filter(class_of(x, mode)) == s.filter(class_of(x, mode)) by {
            let c = class_of(x, mode);
            assert(entry_views(r@).filter(c) == (entry_views(a@) + entry_views(b@)).filter(c));
            Seq::filter_distributes_over_add(entry_views(a@), entry_views(b@), c);
            Seq::filter_distributes_over_add(full.subrange(lo as int, mid as int), full.subrange(mid as int, hi as int), c);
            assert(entry_views(a@).filter(c) == full.subrange(lo as int, mid as int).filter(c));
            assert(entry_views(b@).filter(c) == full.subrange(mid as int, hi as int).filter(c));
        }
    }
    r
}

/// The entries of `v` in the order `mode`, stably.
pub fn sort_entries(v: &Vec<FileEntry>, mode: SortMode) -> (r: Vec<FileEntry>)
    ensures
        entry_views(r@) == sorted_by(entry_views(v@), mode),
{
    let r = sort_range(v, 0, v.len(), mode);
    proof {
        assert(entry_views(v@).subrange(0, v@.len() as int) =~= entry_views(v@));
        lemma_sorted_by_characterized(entry_views(v@), entry_views(r@), mode);
    }
    r
}

/// The `n` largest entries of `v` (all of them when there are fewer),
/// largest first; of equal sizes, the earlier in `v` first.
pub fn largest_entries(v: &Vec<FileEntry>, n: usize) -> (r: Vec<FileEntry>)
    ensures
        entry_views(r@) == sorted_by(entry_views(v@), SortMode::Size).take(
            if n < v@.len() { n as int } else { v@.len() as int },
        ),
{
    let mut sorted = sort_entries(v, SortMode::Size);
    proof {
        lemma_sorted_by_is_sorted(entry_views(v@), SortMode::Size);
    }
    if n < sorted.len() {
        sorted.truncate(n);
    }
    let ghost full = sorted_by(entry_views(v@), SortMode::Size);
    assert(entry_views(sorted@) =~= full.take(if n < v@.len() { n as int } else { v@.len() as int }));
    sorted
}


// ── The three orders, stated on the entries ──────────────────────────

/// `b` is not before `a` in code-point order: at the first position where
/// they differ `a` has the smaller character, and `b` is not a proper
/// prefix of `a`.
pub open spec fn name_not_after(a: Seq<char>, b: Seq<char>) -> bool {
    &&& forall|k: int|
        0 <= k < a.len() && k < b.len() && a.take(k) == b.take(k) && a[k] != b[k] ==> (#[trigger] a[k]) < (
        #[trigger] b[k])
    &&& !(b.len() < a.len() && a.take(b.len() as int) == b)
}

proof fn lemma_chars_less_first_difference(b: Seq<char>, a: Seq<char>, k: int)
    requires
        0 <= k < a.len(),
        k < b.len(),
        a.take(k) == b.take(k),
        b[k] < a[k],
    ensures
        chars_less(b, a),
    decreases k,
{
    if k > 0 {
        assert(a[0] == a.take(k)[0] && b[0] == b.take(k)[0]);
        assert(a.drop_first().take(k - 1) =~= a.take(k).drop_first());
        assert(b.drop_first().take(k - 1) =~= b.take(k).drop_first());
        lemma_chars_less_first_difference(b.drop_first(), a.drop_first(), k - 1);
    }
}

proof fn lemma_chars_less_prefix(b: Seq<char>, a: Seq<char>)
    requires
        b.len() < a.len(),
        a.take(b.len() as int) == b,
    ensures
        chars_less(b, a),
    decreases b.len(),
{
    if b.len() > 0 {
        assert(a[0] == a.take(b.len() as int)[0]);
        assert(a.drop_first().take(b.len() - 1) =~= b.drop_first());
        lemma_chars_less_prefix(b.drop_first(), a.drop_first());
    }
}

/// A listing sorted by size has the sizes from largest to smallest; sorted
/// by name, each name comes, in code-point order, no later than the next
/// ones; sorted by time, the modification times (unknown counted as 0) from
/// latest to earliest. In every case the entries are those of the input.
pub proof fn lemma_sort_orders(s: Seq<FileEntryView>)
    ensures
        forall|i: int, j: int|
            0 <= i < j < s.len() ==> (#[trigger] sorted_by(s, SortMode::Size)[i]).size >= (
            #[trigger] sorted_by(s, SortMode::Size)[j]).size,
        forall|i: int, j: int|
            0 <= i < j < s.len() ==> name_not_after(
                (#[trigger] sorted_by(s, SortMode::Name)[i]).name,
                (#[trigger] sorted_by(s, SortMode::Name)[j]).name,
            ),
        forall|i: int, j: int|
            0 <= i < j < s.len() ==> (match (#[trigger] sorted_by(s, SortMode::Modified)[i]).modified {
                Some(t) => t,
                None => 0u64,
            }) >= (match (#[trigger] sorted_by(s, SortMode::Modified)[j]).modified {
                Some(t) => t,
                None => 0u64,
            }),
        sorted_by(s, SortMode::Size).to_multiset() == s.to_multiset(),
        sorted_by(s, SortMode::Name).to_multiset() == s.to_multiset(),
        sorted_by(s, SortMode::Modified).to_multiset() == s.to_multiset(),
{
    lemma_sorted_by_is_sorted(s, SortMode::Size);
    lemma_sorted_by_is_sorted(s, SortMode::Name);
    lemma_sorted_by_is_sorted(s, SortMode::Modified);
    lemma_sorted_by_permutes(s, SortMode::Size);
    lemma_sorted_by_permutes(s, SortMode::Name);
    lemma_sorted_by_permutes(s, SortMode::Modified);
    let r = sorted_by(s, SortMode::Name);
    assert forall|i: int, j: int| 0 <= i < j < s.len() implies name_not_after(
        (#[trigger] r[i]).name,
        (#[trigger] r[j]).name,
    ) by {
        let a = r[i].name;
        let b = r[j].name;
        assert(!chars_less(b, a));
        assert forall|k: int| 0 <= k < a.len() && k < b.len() && a.take(k) == b.take(k) && a[k] != b[k] implies (
        #[trigger] a[k]) < (#[trigger] b[k]) by {
            if b[k] < a[k] {
                lemma_chars_less_first_difference(b, a, k);
            }
        }
        if b.len() < a.len() && a.take(b.len() as int) == b {
            lemma_chars_less_prefix(b, a);
        }
    }
}

} // verus!
