//! What holds of the browser across key presses and listings.

use vstd::prelude::*;
use super::{
    AppMode, AppView, current_entry_of, entry_shown, last_row, rebuilt, shown_indices,
    visible_of,
};
use super::handlers::{CommandView, Key, step};
use super::{apply_message, export_message, request_of, status_text, Language, RequestView, SortMode};
use crate::scanner::{FileEntryView, MessageView};
use crate::sorting::{is_sorted_by, lemma_sort_orders, lemma_sorted_by_is_sorted, name_not_after};
use crate::text::{ascii_lower, ascii_text, has_substring, lowercase};
use super::handlers::{browse_step, in_mode, toggled};

verus! {

/// Only Esc and `q` in browse mode quit; in every other mode (help, plot,
/// typing) no key quits.
pub proof fn lemma_quit_only_from_browse(s: AppView, key: Key)
    ensures
        step(s, key).1 is Quit <==> (s.mode == AppMode::Browse && (key == Key::Esc || key == Key::Char('q'))),
{
}

/// Pressing `l` twice, outside the modes where text is typed, gives back
/// the language it started with and changes nothing else but the notice
/// (and, from the plot, which the first `l` closes, the mode).
pub proof fn lemma_language_round_trip(s: AppView)
    requires
        s.mode != AppMode::InputPath,
        s.mode != AppMode::Filter,
    ensures
        step(s, Key::Char('l')).0.lang == toggled(s.lang),
        step(step(s, Key::Char('l')).0, Key::Char('l')).0 == (AppView {
            notification_msg: None,
            mode: if s.mode == AppMode::Plot {
                AppMode::Browse
            } else {
                s.mode
            },
            ..s
        }),
        step(s, Key::Char('l')).1 is Nothing,
{
}

/// In browse mode, one row down and one row up bring the cursor back to
/// where it was, and so do one row up and one row down.
pub proof fn lemma_cursor_round_trip(s: AppView, i: usize)
    requires
        s.mode == AppMode::Browse,
        s.selected == Some(i),
        i <= last_row(s.visible.len()),
    ensures
        step(step(s, Key::Down).0, Key::Up).0.selected == s.selected,
        step(step(s, Key::Up).0, Key::Down).0.selected == s.selected,
{
}

/// In the help popup, scrolling down and then up gives back the offset, as
/// long as scrolling down did not stop at the end.
pub proof fn lemma_help_scroll_round_trip(s: AppView)
    requires
        s.mode == AppMode::Help,
        s.help_scroll < u16::MAX,
    ensures
        step(step(s, Key::Down).0, Key::Up).0.help_scroll == s.help_scroll,
        step(step(s, Key::Down).0, Key::Up).0.mode == AppMode::Help,
        step(s, Key::Home).0.help_scroll == 0,
{
}

/// Keys that mean something in browse mode but not in the help popup (Space,
/// `h`, `r`) leave the popup open and the state as it was, but for the
/// notice.
pub proof fn lemma_help_ignores_browse_keys(s: AppView, c: char)
    requires
        s.mode == AppMode::Help,
        c == ' ' || c == 'h' || c == 'r',
    ensures
        step(s, Key::Char(c)) == (AppView { notification_msg: None, ..s }, CommandView::Nothing),
{
}

/// Typing a character into the filter and erasing it gives back the filter
/// and the rows that were visible with it.
pub proof fn lemma_filter_round_trip(s: AppView, c: char)
    requires
        s.mode == AppMode::Filter,
    ensures
        step(step(s, Key::Char(c)).0, Key::Backspace).0.filter_query == s.filter_query,
        step(step(s, Key::Char(c)).0, Key::Backspace).0.visible == visible_of(s),
{
    assert(s.filter_query.push(c).drop_last() =~= s.filter_query);
}

/// In browse mode, Space on the same entry twice leaves the marks as they
/// were.
pub proof fn lemma_mark_round_trip(s: AppView)
    requires
        s.mode == AppMode::Browse,
    ensures
        step(step(s, Key::Char(' ')).0, Key::Char(' ')).0.marked_items =~= s.marked_items,
{
    match current_entry_of(s) {
        Some(e) => {
            if s.marked_items.contains(e.name) {
                assert(s.marked_items.remove(e.name).insert(e.name) =~= s.marked_items);
            } else {
                assert(s.marked_items.insert(e.name).remove(e.name) =~= s.marked_items);
            }
        },
        None => {},
    }
}

/// One browse step down and one up bring the cursor back to where it was,
/// and so do one up and one down (the cursor wraps at both ends).
pub proof fn lemma_browse_cursor_round_trip(s: AppView, i: usize)
    requires
        s.selected == Some(i),
        i <= last_row(s.visible.len()),
    ensures
        browse_step(browse_step(s, Key::Down).0, Key::Up).0.selected == s.selected,
        browse_step(browse_step(s, Key::Up).0, Key::Down).0.selected == s.selected,
{
}

/// Space in browse mode toggles the mark of the entry under the cursor and
/// changes nothing else; with no entry there it changes nothing; a second
/// Space gives back the marks.
pub proof fn lemma_browse_mark_toggles(s: AppView)
    ensures
        browse_step(s, Key::Char(' ')) == (
            match current_entry_of(s) {
                Some(e) => AppView {
                    marked_items: if s.marked_items.contains(e.name) {
                        s.marked_items.remove(e.name)
                    } else {
                        s.marked_items.insert(e.name)
                    },
                    ..s
                },
                None => s,
            },
            CommandView::Nothing,
        ),
        browse_step(browse_step(s, Key::Char(' ')).0, Key::Char(' ')).0.marked_items =~= s.marked_items,
{
    match current_entry_of(s) {
        Some(e) => {
            if s.marked_items.contains(e.name) {
                assert(s.marked_items.remove(e.name).insert(e.name) =~= s.marked_items);
            } else {
                assert(s.marked_items.insert(e.name).remove(e.name) =~= s.marked_items);
            }
        },
        None => {},
    }
}

proof fn lemma_shown_indices_facts(
    entries: Seq<FileEntryView>,
    show_hidden: bool,
    needle: Seq<char>,
    n: int,
)
    requires
        0 <= n <= entries.len(),
        entries.len() <= usize::MAX,
    ensures
        ({
            let v = shown_indices(entries, show_hidden, needle, n);
            &&& forall|k: int| 0 <= k < v.len() ==> #[trigger] v[k] < n
            &&& forall|k: int| 0 <= k < v.len() ==> entry_shown(entries[#[trigger] v[k] as int], show_hidden, needle)
            &&& forall|k: int, j: int| 0 <= k < j < v.len() ==> #[trigger] v[k] < #[trigger] v[j]
            &&& forall|i: int| 0 <= i < n && entry_shown(entries[i], show_hidden, needle) ==> v.contains(i as usize)
        }),
    decreases n,
{
    if n > 0 {
        lemma_shown_indices_facts(entries, show_hidden, needle, n - 1);
        let r = shown_indices(entries, show_hidden, needle, n - 1);
        let v = shown_indices(entries, show_hidden, needle, n);
        if entry_shown(entries[n - 1], show_hidden, needle) {
            assert(v == r.push((n - 1) as usize));
            assert forall|k: int| 0 <= k < r.len() implies #[trigger] v[k] == r[k] by {}
            assert forall|k: int| 0 <= k < v.len() implies #[trigger] v[k] < n by {
                if k < r.len() {
                    assert(v[k] == r[k]);
                }
            }
            assert forall|k: int, j: int| 0 <= k < j < v.len() implies #[trigger] v[k] < #[trigger] v[j] by {
                assert(v[k] == r[k]);
                assert(r[k] < n - 1);
                if j < r.len() {
                    assert(v[j] == r[j]);
                } else {
                    assert(v[j] == (n - 1) as usize);
                }
            }
            assert forall|k: int| 0 <= k < v.len() implies entry_shown(entries[#[trigger] v[k] as int], show_hidden, needle) by {
                if k < r.len() {
                    assert(v[k] == r[k]);
                    assert(entry_shown(entries[r[k] as int], show_hidden, needle));
                } else {
                    assert(v[k] as int == n - 1);
                }
            }
        } else {
            assert(v == r);
        }
        assert forall|i: int| 0 <= i < n && entry_shown(entries[i], show_hidden, needle) implies v.contains(i as usize) by {
            if i < n - 1 {
                let k = choose|k: int| 0 <= k < r.len() && r[k] == i as usize;
                assert(v[k] == i as usize);
            } else {
                assert(v[v.len() - 1] == i as usize);
            }
        }
    }
}

/// The visible rows are indices of entries, in increasing order, each of an
/// entry that passes the filters; there are at most `top_n` of them; and
/// without a limit no entry that passes the filters is left out.
pub proof fn lemma_visible_rows(s: AppView)
    requires
        s.raw_entries.len() <= usize::MAX,
    ensures
        ({
            let v = visible_of(s);
            &&& forall|k: int| 0 <= k < v.len() ==> #[trigger] v[k] < s.raw_entries.len()
            &&& forall|k: int|
                0 <= k < v.len() ==> entry_shown(
                    s.raw_entries[#[trigger] v[k] as int],
                    s.show_hidden,
                    lowercase(s.filter_query),
                )
            &&& forall|k: int, j: int| 0 <= k < j < v.len() ==> #[trigger] v[k] < #[trigger] v[j]
            &&& s.top_n matches Some(t) ==> v.len() <= t
            &&& s.top_n is None ==> forall|i: int|
                0 <= i < s.raw_entries.len() && entry_shown(s.raw_entries[i], s.show_hidden, lowercase(s.filter_query))
                    ==> v.contains(i as usize)
        }),
{
    let needle = lowercase(s.filter_query);
    let n = s.raw_entries.len() as int;
    lemma_shown_indices_facts(s.raw_entries, s.show_hidden, needle, n);
    let sh = shown_indices(s.raw_entries, s.show_hidden, needle, n);
    let v = visible_of(s);
    match s.top_n {
        Some(t) => {
            if sh.len() > t {
                assert forall|k: int| 0 <= k < v.len() implies #[trigger] v[k] == sh[k] by {}
            }
        },
        None => {},
    }
}

/// After the rows are recomputed the cursor, if any, is on a row (or at 0
/// when there are none).
pub proof fn lemma_rebuilt_cursor_in_range(s: AppView)
    ensures
        rebuilt(s).selected matches Some(c) ==> c <= last_row(rebuilt(s).visible.len()),
        rebuilt(s).selected is Some <==> s.selected is Some,
{
}

/// When a scan finishes, its entries are shown in the current order, the
/// cursor is on the first row and loading is over.
pub proof fn lemma_finished_scan_is_sorted(s: AppView, entries: Seq<FileEntryView>, total: u64)
    ensures
        ({
            let t = apply_message(s, MessageView::Finished { entries, total_size: total });
            &&& is_sorted_by(t.raw_entries, s.sort_mode)
            &&& t.raw_entries.len() == entries.len()
            &&& t.total_size == total
            &&& t.selected == Some(0usize)
            &&& !t.loading
        }),
{
    lemma_sorted_by_is_sorted(entries, s.sort_mode);
}

/// Confirming a deletion hands out exactly the marked names, clears the
/// marks, returns to browse mode and asks for a rescan of the same
/// directory.
pub proof fn lemma_confirm_deletes_marked(s: AppView)
    requires
        s.mode == AppMode::ConfirmDelete,
    ensures
        ({
            let (t, cmd) = step(s, Key::Char('y'));
            &&& cmd == CommandView::Delete(s.marked_items, request_of(t))
            &&& t.marked_items == Set::<Seq<char>>::empty()
            &&& t.mode == AppMode::Browse
            &&& t.loading
            &&& t.current_path == s.current_path
        }),
{
}

/// Enter on a directory opens it: its path becomes the current one, the
/// filter and the marks are dropped, and it is scanned.
pub proof fn lemma_enter_opens_directory(s: AppView, e: FileEntryView)
    requires
        s.mode == AppMode::Browse,
        current_entry_of(s) == Some(e),
        e.is_dir,
    ensures
        ({
            let (t, cmd) = step(s, Key::Enter);
            &&& t.current_path == e.path
            &&& t.filter_query.len() == 0
            &&& t.marked_items == Set::<Seq<char>>::empty()
            &&& t.loading
            &&& cmd == CommandView::Scan(request_of(t))
        }),
{
}

/// A cursor, once there, stays: no key press and no scan message takes it
/// away.
pub proof fn lemma_cursor_stays(s: AppView, key: Key, m: MessageView)
    requires
        s.selected is Some,
    ensures
        step(s, key).0.selected is Some,
        apply_message(s, m).selected is Some,
{
}

/// `r` in browse mode asks for the size cache to be emptied and the current
/// directory to be scanned again.
pub proof fn lemma_refresh_rescans(s: AppView)
    requires
        s.mode == AppMode::Browse,
    ensures
        ({
            let (t, cmd) = step(s, Key::Char('r'));
            &&& cmd == CommandView::Refresh(request_of(t))
            &&& t.loading
            &&& t.current_path == s.current_path
            &&& t.scanned_files_count == 0
        }),
{
}

/// In the plot every key closes it and does nothing else but clear the
/// notice, and, for `l`, switch the language.
pub proof fn lemma_plot_closes_on_any_key(s: AppView, key: Key)
    requires
        s.mode == AppMode::Plot,
    ensures
        step(s, key) == (
            AppView {
                mode: AppMode::Browse,
                notification_msg: None,
                lang: if key == Key::Char('l') {
                    toggled(s.lang)
                } else {
                    s.lang
                },
                ..s
            },
            CommandView::Nothing,
        ),
{
}

/// In browse mode Home puts the cursor on the first row and End on the last.
pub proof fn lemma_home_end(s: AppView)
    requires
        s.mode == AppMode::Browse,
    ensures
        step(s, Key::Home).0.selected == Some(0usize),
        step(s, Key::End).0.selected == Some(last_row(s.visible.len())),
        s.visible.len() > 0 ==> step(s, Key::End).0.selected == Some((s.visible.len() - 1) as usize),
{
}

/// Esc in the filter clears it: back in browse mode, every entry that is
/// not hidden is visible again (up to `top_n`).
pub proof fn lemma_filter_escape_clears(s: AppView)
    requires
        s.mode == AppMode::Filter,
    ensures
        step(s, Key::Esc).0.mode == AppMode::Browse,
        step(s, Key::Esc).0.filter_query.len() == 0,
        step(s, Key::Esc).0.visible == visible_of(AppView { filter_query: Seq::empty(), ..s }),
{
}

/// Recomputing the visible rows twice gives what recomputing once gives.
pub proof fn lemma_rebuilt_idempotent(s: AppView)
    ensures
        rebuilt(rebuilt(s)) == rebuilt(s),
{
}

proof fn lemma_substring_of_longer(hay: Seq<char>, needle: Seq<char>, c: char)
    requires
        has_substring(hay, needle.push(c)),
    ensures
        has_substring(hay, needle),
{
    let n2 = needle.push(c);
    let i = choose|i: int| 0 <= i && i + n2.len() <= hay.len() && #[trigger] hay.subrange(i, i + n2.len()) == n2;
    assert(hay.subrange(i, i + needle.len()) =~= needle) by {
        assert forall|k: int| 0 <= k < needle.len() implies hay.subrange(i, i + needle.len())[k] == needle[k] by {
            assert(hay.subrange(i, i + n2.len())[k] == n2[k]);
        }
    }
}

/// With no row limit, typing one more ASCII character into an ASCII filter
/// never adds a row: every row visible afterwards was visible before. The
/// conditions on `lowercase` are what `to_lowercase` states of ASCII text.
pub proof fn lemma_longer_query_narrows(s: AppView, c: char)
    requires
        s.top_n is None,
        s.raw_entries.len() <= usize::MAX,
        ascii_text(s.filter_query.push(c)),
        lowercase(s.filter_query) == ascii_lower(s.filter_query),
        lowercase(s.filter_query.push(c)) == ascii_lower(s.filter_query.push(c)),
    ensures
        ({
            let t = AppView { filter_query: s.filter_query.push(c), ..s };
            forall|k: int| 0 <= k < visible_of(t).len() ==> visible_of(s).contains(#[trigger] visible_of(t)[k])
        }),
{
    let t = AppView { filter_query: s.filter_query.push(c), ..s };
    let q = s.filter_query;
    assert(ascii_lower(q.push(c)) =~= ascii_lower(q).push(crate::text::ascii_lower_char(c)));
    lemma_visible_rows(s);
    lemma_visible_rows(t);
    assert forall|k: int| 0 <= k < visible_of(t).len() implies visible_of(s).contains(#[trigger] visible_of(t)[k]) by {
        let i = visible_of(t)[k] as int;
        let e = s.raw_entries[i];
        assert(entry_shown(e, s.show_hidden, lowercase(t.filter_query)));
        if lowercase(q).len() > 0 {
            lemma_substring_of_longer(lowercase(e.name), lowercase(q), crate::text::ascii_lower_char(c));
        }
        assert(entry_shown(e, s.show_hidden, lowercase(q)));
        assert(i as usize == visible_of(t)[k]);
    }
}


/// Esc or `n` while a deletion waits for confirmation cancels it: back to
/// browse mode, with the marks and everything else kept, and nothing for
/// the caller to do.
pub proof fn lemma_confirm_cancel(s: AppView, key: Key)
    requires
        s.mode == AppMode::ConfirmDelete,
        key == Key::Esc || key == Key::Char('n'),
    ensures
        step(s, key) == (AppView { mode: AppMode::Browse, notification_msg: None, ..s }, CommandView::Nothing),
{
}

/// A scan that the browser asks for covers its current directory with the
/// ignored names of its settings and its depth limit.
pub proof fn lemma_request_follows_settings(s: AppView)
    ensures
        request_of(s).path == s.current_path,
        request_of(s).ignored == s.config.ignored_dirs,
        request_of(s).max_depth == s.max_depth,
{
}

/// Whether an entry is visible depends on its name alone, never on its size
/// or kind: with no row limit, an entry is visible exactly when its name
/// does not begin with `.` (or hidden files are shown) and its lowercased
/// name contains the lowercased filter (or that is empty). The rows keep
/// the order of the entries.
pub proof fn lemma_visible_by_name(s: AppView)
    requires
        s.raw_entries.len() <= usize::MAX,
    ensures
        ({
            let v = visible_of(s);
            let needle = lowercase(s.filter_query);
            &&& forall|k: int| 0 <= k < v.len() ==> #[trigger] v[k] < s.raw_entries.len()
            &&& forall|k: int, j: int| 0 <= k < j < v.len() ==> #[trigger] v[k] < #[trigger] v[j]
            &&& forall|k: int|
                0 <= k < v.len() ==> {
                    let name = s.raw_entries[#[trigger] v[k] as int].name;
                    &&& s.show_hidden || !(name.len() > 0 && name[0] == '.')
                    &&& needle.len() == 0 || has_substring(lowercase(name), needle)
                }
            &&& s.top_n is None ==> forall|i: int|
                0 <= i < s.raw_entries.len() && (s.show_hidden || !(s.raw_entries[i].name.len() > 0
                    && s.raw_entries[i].name[0] == '.')) && (needle.len() == 0 || has_substring(
                    lowercase(s.raw_entries[i].name),
                    needle,
                )) ==> v.contains(i as usize)
        }),
{
    lemma_visible_rows(s);
}

/// With hidden files shown, an empty lowercased filter and no row limit,
/// every entry is visible, in order: the rows are `0, 1, ...`.
pub proof fn lemma_everything_visible(s: AppView)
    requires
        s.raw_entries.len() <= usize::MAX,
        s.show_hidden,
        lowercase(s.filter_query).len() == 0,
        s.top_n is None,
    ensures
        visible_of(s) == Seq::new(s.raw_entries.len(), |i: int| i as usize),
{
    lemma_all_shown(s.raw_entries, lowercase(s.filter_query), s.raw_entries.len() as int);
}

proof fn lemma_all_shown(entries: Seq<FileEntryView>, needle: Seq<char>, n: int)
    requires
        0 <= n <= entries.len(),
        entries.len() <= usize::MAX,
        needle.len() == 0,
    ensures
        shown_indices(entries, true, needle, n) == Seq::new(n as nat, |i: int| i as usize),
    decreases n,
{
    if n > 0 {
        lemma_all_shown(entries, needle, n - 1);
        assert(Seq::new(n as nat, |i: int| i as usize) =~= Seq::new((n - 1) as nat, |i: int| i as usize).push(
            (n - 1) as usize,
        ));
    } else {
        assert(Seq::new(0nat, |i: int| i as usize) =~= Seq::<usize>::empty());
    }
}


/// The keys of browse mode that open another mode or hand work out, each
/// changing nothing else but the notice: `/` starts the filter, `g` starts
/// typing a path (from an empty one), `?` opens the help at its top, `p`
/// opens the plot, `e` asks for the report, `r` rescans the current
/// directory with the configured ignored names and depth, and Enter on a
/// file does nothing.
pub proof fn lemma_browse_keys(s: AppView)
    requires
        s.mode == AppMode::Browse,
    ensures
        step(s, Key::Char('/')) == (AppView { mode: AppMode::Filter, notification_msg: None, ..s }, CommandView::Nothing),
        step(s, Key::Char('g')) == (
            AppView { mode: AppMode::InputPath, input_buffer: Seq::empty(), notification_msg: None, ..s },
            CommandView::Nothing,
        ),
        step(s, Key::Char('?')) == (
            AppView { mode: AppMode::Help, help_scroll: 0, notification_msg: None, ..s },
            CommandView::Nothing,
        ),
        step(s, Key::Char('p')) == (AppView { mode: AppMode::Plot, notification_msg: None, ..s }, CommandView::Nothing),
        step(s, Key::Char('e')) == (AppView { notification_msg: None, ..s }, CommandView::Export),
        step(s, Key::Char('r')).1 == CommandView::Refresh(
            RequestView { path: s.current_path, ignored: s.config.ignored_dirs, max_depth: s.max_depth },
        ),
        step(s, Key::Char('r')).0 == (AppView {
            loading: true,
            scanned_files_count: 0,
            scanning_path: s.current_path,
            notification_msg: None,
            ..s
        }),
        current_entry_of(s) matches Some(e) && !e.is_dir ==> step(s, Key::Enter) == (
            AppView { notification_msg: None, ..s },
            CommandView::Nothing,
        ),
{
}

/// `h` flips whether hidden files are shown and recomputes the rows with
/// that setting, touching nothing else but the cursor; pressing it twice
/// gives back the setting and the rows.
pub proof fn lemma_hidden_toggle(s: AppView)
    requires
        s.mode == AppMode::Browse,
    ensures
        ({
            let t = step(s, Key::Char('h')).0;
            let u = step(t, Key::Char('h')).0;
            &&& t.show_hidden == !s.show_hidden
            &&& t.visible == visible_of(AppView { show_hidden: !s.show_hidden, ..s })
            &&& t.raw_entries == s.raw_entries
            &&& t.mode == AppMode::Browse
            &&& t.marked_items == s.marked_items
            &&& t.filter_query == s.filter_query
            &&& u.show_hidden == s.show_hidden
            &&& u.visible == visible_of(s)
        }),
{
}

/// `s`, `n` and `t` order the entries by size (largest first), by name
/// (code-point order) and by modification time (latest first), keeping the
/// same entries.
pub proof fn lemma_sort_keys(s: AppView)
    requires
        s.mode == AppMode::Browse,
    ensures
        ({
            let a = step(s, Key::Char('s')).0;
            let b = step(s, Key::Char('n')).0;
            let c = step(s, Key::Char('t')).0;
            &&& a.sort_mode == SortMode::Size
            &&& b.sort_mode == SortMode::Name
            &&& c.sort_mode == SortMode::Modified
            &&& a.raw_entries.to_multiset() == s.raw_entries.to_multiset()
            &&& b.raw_entries.to_multiset() == s.raw_entries.to_multiset()
            &&& c.raw_entries.to_multiset() == s.raw_entries.to_multiset()
            &&& forall|i: int, j: int|
                0 <= i < j < a.raw_entries.len() ==> (#[trigger] a.raw_entries[i]).size >= (
                #[trigger] a.raw_entries[j]).size
            &&& forall|i: int, j: int|
                0 <= i < j < b.raw_entries.len() ==> name_not_after(
                    (#[trigger] b.raw_entries[i]).name,
                    (#[trigger] b.raw_entries[j]).name,
                )
            &&& forall|i: int, j: int|
                0 <= i < j < c.raw_entries.len() ==> (match (#[trigger] c.raw_entries[i]).modified {
                    Some(x) => x,
                    None => 0u64,
                }) >= (match (#[trigger] c.raw_entries[j]).modified {
                    Some(x) => x,
                    None => 0u64,
                })
        }),
{
    lemma_sort_orders(s.raw_entries);
    let a = step(s, Key::Char('s')).0;
    let b = step(s, Key::Char('n')).0;
    let c = step(s, Key::Char('t')).0;
    assert(a.raw_entries == crate::sorting::sorted_by(s.raw_entries, SortMode::Size));
    assert(b.raw_entries == crate::sorting::sorted_by(s.raw_entries, SortMode::Name));
    assert(c.raw_entries == crate::sorting::sorted_by(s.raw_entries, SortMode::Modified));
    lemma_sorted_by_is_sorted(s.raw_entries, SortMode::Size);
    lemma_sorted_by_is_sorted(s.raw_entries, SortMode::Name);
    lemma_sorted_by_is_sorted(s.raw_entries, SortMode::Modified);
    let ra = crate::sorting::sorted_by(s.raw_entries, SortMode::Size);
    let rb = crate::sorting::sorted_by(s.raw_entries, SortMode::Name);
    let rc = crate::sorting::sorted_by(s.raw_entries, SortMode::Modified);
    assert forall|i: int, j: int| 0 <= i < j < a.raw_entries.len() implies (#[trigger] a.raw_entries[i]).size >= (
    #[trigger] a.raw_entries[j]).size by {
        assert(ra[i].size >= ra[j].size);
    }
    assert forall|i: int, j: int| 0 <= i < j < b.raw_entries.len() implies name_not_after(
        (#[trigger] b.raw_entries[i]).name,
        (#[trigger] b.raw_entries[j]).name,
    ) by {
        assert(name_not_after(rb[i].name, rb[j].name));
    }
    assert forall|i: int, j: int| 0 <= i < j < c.raw_entries.len() implies (match (#[trigger] c.raw_entries[i]).modified {
        Some(x) => x,
        None => 0u64,
    }) >= (match (#[trigger] c.raw_entries[j]).modified {
        Some(x) => x,
        None => 0u64,
    }) by {
        assert(rc[i] == c.raw_entries[i] && rc[j] == c.raw_entries[j]);
    }
}

/// `d` asks to confirm deleting the marked entries; with none marked it
/// marks the entry under the cursor first, and with no entry there it does
/// nothing.
pub proof fn lemma_delete_key(s: AppView)
    requires
        s.mode == AppMode::Browse,
    ensures
        s.marked_items != Set::<Seq<char>>::empty() ==> step(s, Key::Char('d')) == (
            AppView { mode: AppMode::ConfirmDelete, notification_msg: None, ..s },
            CommandView::Nothing,
        ),
        current_entry_of(s) matches Some(e) ==> s.marked_items == Set::<Seq<char>>::empty() ==> step(
            s,
            Key::Char('d'),
        ) == (
            AppView {
                mode: AppMode::ConfirmDelete,
                marked_items: set![e.name],
                notification_msg: None,
                ..s
            },
            CommandView::Nothing,
        ),
        s.marked_items == Set::<Seq<char>>::empty() && current_entry_of(s) is None ==> step(s, Key::Char('d')) == (
            AppView { notification_msg: None, ..s },
            CommandView::Nothing,
        ),
{
    if s.marked_items == Set::<Seq<char>>::empty() {
        if let Some(e) = current_entry_of(s) {
            assert(Set::<Seq<char>>::empty().insert(e.name) =~= set![e.name]);
        }
    }
}

/// Typing a path: a character is appended, Backspace takes the last one
/// off, Enter hands the typed path out to be opened and Esc drops it, both
/// returning to browse mode with an empty buffer.
pub proof fn lemma_path_typing(s: AppView, c: char)
    requires
        s.mode == AppMode::InputPath,
    ensures
        step(s, Key::Char(c)).0.input_buffer == s.input_buffer.push(c),
        step(s, Key::Char(c)).0.mode == AppMode::InputPath,
        s.input_buffer.len() > 0 ==> step(s, Key::Backspace).0.input_buffer == s.input_buffer.take(
            s.input_buffer.len() - 1,
        ),
        step(s, Key::Enter) == (
            AppView { mode: AppMode::Browse, input_buffer: Seq::empty(), notification_msg: None, ..s },
            CommandView::GoToPath(s.input_buffer),
        ),
        step(s, Key::Esc) == (
            AppView { mode: AppMode::Browse, input_buffer: Seq::empty(), notification_msg: None, ..s },
            CommandView::Nothing,
        ),
{
}

/// Esc, `q`, `?` and Enter close the help, back to browse mode with the
/// scroll reset.
pub proof fn lemma_help_closes(s: AppView, key: Key)
    requires
        s.mode == AppMode::Help,
        key == Key::Esc || key == Key::Char('q') || key == Key::Char('?') || key == Key::Enter,
    ensures
        step(s, key) == (
            AppView { mode: AppMode::Browse, help_scroll: 0, notification_msg: None, ..s },
            CommandView::Nothing,
        ),
{
}

/// A progress message records the count and the path it carries and
/// changes nothing else.
pub proof fn lemma_progress_recorded(s: AppView, n: usize, path: Seq<char>)
    ensures
        apply_message(s, MessageView::Progress { scanned_files: n, current_path: path }) == (AppView {
            scanned_files_count: n,
            scanning_path: path,
            ..s
        }),
{
}

/// The bottom bar shows the notice when there is one; otherwise, while a
/// path or a filter is typed, it ends with the text typed so far.
pub proof fn lemma_status_shows_notice_and_typing(s: AppView)
    ensures
        s.notification_msg matches Some(m) ==> status_text(s) == m,
        s.notification_msg is None && s.mode == AppMode::Filter ==> status_text(s).len() >= s.filter_query.len()
            && status_text(s).skip(status_text(s).len() - s.filter_query.len()) == s.filter_query,
        s.notification_msg is None && s.mode == AppMode::InputPath ==> status_text(s).len() >= s.input_buffer.len()
            && status_text(s).skip(status_text(s).len() - s.input_buffer.len()) == s.input_buffer,
{
    if s.notification_msg is None {
        let t = status_text(s);
        if s.mode == AppMode::Filter {
            let p = match s.lang {
                Language::English => "Filter query"@ + ": "@,
                Language::Russian => "Фильтр"@ + ": "@,
            };
            assert(t == p + s.filter_query);
            assert(t.skip(t.len() - s.filter_query.len()) =~= s.filter_query);
        }
        if s.mode == AppMode::InputPath {
            let p = match s.lang {
                Language::English => "Enter path"@ + ": "@,
                Language::Russian => "Введите путь"@ + ": "@,
            };
            assert(t == p + s.input_buffer);
            assert(t.skip(t.len() - s.input_buffer.len()) =~= s.input_buffer);
        }
    }
}

/// The notice after exporting tells success from failure, in either
/// language.
pub proof fn lemma_export_message_tells_outcome(lang: Language)
    ensures
        export_message(lang, true) != export_message(lang, false),
{
    match lang {
        Language::English => {
            reveal_strlit("Report exported to rustdu_report.json!");
            reveal_strlit("Export failed!");
            assert(export_message(lang, true).len() != export_message(lang, false).len());
        },
        Language::Russian => {
            reveal_strlit("Отчет успешно экспортирован в rustdu_report.json!");
            reveal_strlit("Ошибка экспорта!");
            assert(export_message(lang, true).len() != export_message(lang, false).len());
        },
    }
}

} // verus!
