//! The browser's state: the listing of the current directory, which of its
//! entries are visible, the cursor, the marks and the mode.

use vstd::prelude::*;

pub mod handlers;
pub mod marks;
pub mod properties;

use crate::config::{Config, ConfigView};
use crate::scanner::{
    FileEntry, FileEntryView, MessageView, ScanMessage, duplicate_entries, entry_views,
    message_views,
};
use crate::paths::{lemma_parent_target_not_empty, parent_dir, parent_known, parent_target, parent_target_of};
use crate::sorting::{sort_entries, sorted_by};
use crate::text::{
    clone_strings, contains_str, has_substring, is_hidden_name, lowercase, starts_with_dot,
    string_of, to_lowercase, views_of,
};
use marks::NameSet;

verus! {

#[derive(Clone, Copy, Debug, PartialEq, Eq, Structural)]
pub enum Language {
    English,
    Russian,
}

#[derive(Clone, Copy, Debug, PartialEq, Eq, Structural)]
pub enum AppMode {
    Browse,
    ConfirmDelete,
    InputPath,
    Filter,
    Help,
    Plot,
}

#[derive(Clone, Copy, Debug, PartialEq, Eq, Structural)]
pub enum SortMode {
    Size,
    Name,
    Modified,
}

} // verus!

verus! {

broadcast use vstd::string::group_string_axioms;

// ── State ──────────────────────────────────────────────────────────

/// The browser.
pub struct App {
    pub current_path: String,
    /// All entries in the current directory.
    pub raw_entries: Vec<FileEntry>,
    /// Indices into `raw_entries` that pass the current filter, in display order.
    pub visible: Vec<usize>,
    /// The row under the cursor, as a position in `visible`.
    pub selected: Option<usize>,
    pub mode: AppMode,
    pub input_buffer: String,
    pub filter_query: String,
    pub loading: bool,
    pub scanned_files_count: usize,
    pub scanning_path: String,
    pub total_size: u64,
    pub sort_mode: SortMode,
    pub lang: Language,
    pub show_hidden: bool,
    pub marked_items: NameSet,
    pub notification_msg: Option<String>,
    /// Scroll offset for the help popup (in lines).
    pub help_scroll: u16,
    pub config: Config,
    pub max_depth: Option<usize>,
    pub top_n: Option<usize>,
}

/// What an `App` holds, as plain values.
pub struct AppView {
    pub current_path: Seq<char>,
    pub raw_entries: Seq<FileEntryView>,
    pub visible: Seq<usize>,
    pub selected: Option<usize>,
    pub mode: AppMode,
    pub input_buffer: Seq<char>,
    pub filter_query: Seq<char>,
    pub loading: bool,
    pub scanned_files_count: usize,
    pub scanning_path: Seq<char>,
    pub total_size: u64,
    pub sort_mode: SortMode,
    pub lang: Language,
    pub show_hidden: bool,
    pub marked_items: Set<Seq<char>>,
    pub notification_msg: Option<Seq<char>>,
    pub help_scroll: u16,
    pub config: ConfigView,
    pub max_depth: Option<usize>,
    pub top_n: Option<usize>,
}

/// The characters of an optional string.
pub open spec fn opt_view(s: Option<String>) -> Option<Seq<char>> {
    match s {
        Some(t) => Some(t@),
        None => None,
    }
}

impl View for App {
    type V = AppView;

    open spec fn view(&self) -> AppView {
        AppView {
            current_path: self.current_path@,
            raw_entries: entry_views(self.raw_entries@),
            visible: self.visible@,
            selected: self.selected,
            mode: self.mode,
            input_buffer: self.input_buffer@,
            filter_query: self.filter_query@,
            loading: self.loading,
            scanned_files_count: self.scanned_files_count,
            scanning_path: self.scanning_path@,
            total_size: self.total_size,
            sort_mode: self.sort_mode,
            lang: self.lang,
            show_hidden: self.show_hidden,
            marked_items: self.marked_items@,
            notification_msg: opt_view(self.notification_msg),
            help_scroll: self.help_scroll,
            config: self.config@,
            max_depth: self.max_depth,
            top_n: self.top_n,
        }
    }
}

/// What the browser asks to be scanned.
pub struct ScanRequest {
    pub path: String,
    pub ignored: Vec<String>,
    pub max_depth: Option<usize>,
}

/// What a `ScanRequest` holds, as plain values.
pub struct RequestView {
    pub path: Seq<char>,
    pub ignored: Seq<Seq<char>>,
    pub max_depth: Option<usize>,
}

impl View for ScanRequest {
    type V = RequestView;

    open spec fn view(&self) -> RequestView {
        RequestView { path: self.path@, ignored: views_of(self.ignored@), max_depth: self.max_depth }
    }
}

// ── What is visible ────────────────────────────────────────────────

/// Entry `e` passes the filters: it is not hidden (or hidden files are
/// shown), and its lowercased name contains `needle` (when that is not
/// empty).
pub open spec fn entry_shown(e: FileEntryView, show_hidden: bool, needle: Seq<char>) -> bool {
    &&& show_hidden || !is_hidden_name(e.name)
    &&& needle.len() == 0 || has_substring(lowercase(e.name), needle)
}

/// The indices below `n` of the entries that pass the filters, in order.
pub open spec fn shown_indices(
    entries: Seq<FileEntryView>,
    show_hidden: bool,
    needle: Seq<char>,
    n: int,
) -> Seq<usize>
    decreases n,
{
    if n <= 0 {
        Seq::empty()
    } else {
        let r = shown_indices(entries, show_hidden, needle, n - 1);
        if entry_shown(entries[n - 1], show_hidden, needle) {
            r.push((n - 1) as usize)
        } else {
            r
        }
    }
}

/// The first `top` elements of `s`, or all of `s` when there is no limit.
pub open spec fn limit(s: Seq<usize>, top: Option<usize>) -> Seq<usize> {
    match top {
        Some(t) => if s.len() > t {
            s.take(t as int)
        } else {
            s
        },
        None => s,
    }
}

/// The visible rows of `s`: the indices of the entries that pass the
/// filters, at most `top_n` of them.
pub open spec fn visible_of(s: AppView) -> Seq<usize> {
    limit(
        shown_indices(s.raw_entries, s.show_hidden, lowercase(s.filter_query), s.raw_entries.len() as int),
        s.top_n,
    )
}

/// The last position of a list of `len` rows (0 for an empty list).
pub open spec fn last_row(len: nat) -> usize {
    if len == 0 {
        0
    } else {
        (len - 1) as usize
    }
}

/// The cursor after the list has changed to `len` rows: moved to the last
/// row when it is past it.
pub open spec fn clamp_cursor(sel: Option<usize>, len: nat) -> Option<usize> {
    let cur: usize = match sel {
        Some(c) => c,
        None => 0,
    };
    if cur > last_row(len) {
        Some(last_row(len))
    } else {
        sel
    }
}

/// `s` with its visible rows recomputed and the cursor kept in range.
pub open spec fn rebuilt(s: AppView) -> AppView {
    AppView { visible: visible_of(s), selected: clamp_cursor(s.selected, visible_of(s).len()), ..s }
}

/// `s` with its entries in the order of its sort mode, then rebuilt.
pub open spec fn resorted(s: AppView) -> AppView {
    rebuilt(AppView { raw_entries: sorted_by(s.raw_entries, s.sort_mode), ..s })
}

// ── Scanning ──────────────────────────────────────────────────────

/// `s` once a scan of its current path has started.
pub open spec fn loading_started(s: AppView) -> AppView {
    AppView { loading: true, scanned_files_count: 0, scanning_path: s.current_path, ..s }
}

/// The scan that `s` asks for: its current path, its ignored names, its
/// depth limit.
pub open spec fn request_of(s: AppView) -> RequestView {
    RequestView { path: s.current_path, ignored: s.config.ignored_dirs, max_depth: s.max_depth }
}

/// `s` moved to `path`, with no filter and no marks.
pub open spec fn opened(s: AppView, path: Seq<char>) -> AppView {
    AppView {
        current_path: path,
        filter_query: Seq::empty(),
        marked_items: Set::empty(),
        ..s
    }
}

/// `s` after one message of the scan: progress is recorded; a finished
/// scan replaces the entries (sorted, then filtered), the total, and puts
/// the cursor on the first row.
pub open spec fn apply_message(s: AppView, m: MessageView) -> AppView {
    match m {
        MessageView::Progress { scanned_files, current_path } => AppView {
            scanned_files_count: scanned_files,
            scanning_path: current_path,
            ..s
        },
        MessageView::Finished { entries, total_size } => {
            let t = resorted(AppView { raw_entries: entries, total_size, ..s });
            AppView { selected: Some(0), loading: false, ..t }
        },
    }
}

/// `s` after the messages `ms`, in order.
pub open spec fn apply_messages(s: AppView, ms: Seq<MessageView>) -> AppView
    decreases ms.len(),
{
    if ms.len() == 0 {
        s
    } else {
        apply_message(apply_messages(s, ms.drop_last()), ms.last())
    }
}

/// Some message of `ms` says that the scan finished.
pub open spec fn has_finished(ms: Seq<MessageView>) -> bool {
    exists|i: int| 0 <= i < ms.len() && #[trigger] ms[i] is Finished
}

/// The language a configuration asks for: Russian for `"ru"`, else English.
pub open spec fn language_of(lang: Seq<char>) -> Language {
    if lang == "ru"@ {
        Language::Russian
    } else {
        Language::English
    }
}

/// A browser of `path` before its first scan has started.
pub open spec fn initial_view(
    path: Seq<char>,
    max_depth: Option<usize>,
    top_n: Option<usize>,
    config: ConfigView,
) -> AppView {
    AppView {
        current_path: path,
        raw_entries: Seq::empty(),
        visible: Seq::empty(),
        selected: Some(0),
        mode: AppMode::Browse,
        input_buffer: Seq::empty(),
        filter_query: Seq::empty(),
        loading: false,
        scanned_files_count: 0,
        scanning_path: Seq::empty(),
        total_size: 0,
        sort_mode: SortMode::Size,
        lang: language_of(config.default_lang),
        show_hidden: config.show_hidden,
        marked_items: Set::empty(),
        notification_msg: None,
        help_scroll: 0,
        config,
        max_depth,
        top_n,
    }
}

/// The notice shown after exporting a report.
pub open spec fn export_message(lang: Language, ok: bool) -> Seq<char> {
    match (lang, ok) {
        (Language::English, true) => "Report exported to rustdu_report.json!"@,
        (Language::Russian, true) => "Отчет успешно экспортирован в rustdu_report.json!"@,
        (Language::English, false) => "Export failed!"@,
        (Language::Russian, false) => "Ошибка экспорта!"@,
    }
}

/// The text of the bottom bar: the notice if there is one, else the hint
/// of the mode in the interface language (with what is being typed, in the
/// modes where text is typed).
pub open spec fn status_text(s: AppView) -> Seq<char> {
    match s.notification_msg {
        Some(msg) => msg,
        None => match (s.mode, s.lang) {
            (AppMode::Browse, Language::English) => "?  — all keybindings and legend   |   q  — quit"@,
            (AppMode::Browse, Language::Russian) => "?  — все клавиши и легенда   |   q  — выход"@,
            (AppMode::ConfirmDelete, Language::English) => "Delete selected/marked items? (y - yes, n - no)"@,
            (AppMode::ConfirmDelete, Language::Russian) => "Удалить выбранные элементы? (y - да, n - нет)"@,
            (AppMode::InputPath, Language::English) => "Enter path"@ + ": "@ + s.input_buffer,
            (AppMode::InputPath, Language::Russian) => "Введите путь"@ + ": "@ + s.input_buffer,
            (AppMode::Filter, Language::English) => "Filter query"@ + ": "@ + s.filter_query,
            (AppMode::Filter, Language::Russian) => "Фильтр"@ + ": "@ + s.filter_query,
            (AppMode::Help, Language::English) => "↑/↓ scroll · Esc / q / ? close"@,
            (AppMode::Help, Language::Russian) => "↑/↓ прокрутка · Esc / q / ? закрыть"@,
            (AppMode::Plot, Language::English) => "Press any key to close"@,
            (AppMode::Plot, Language::Russian) => "Нажмите любую клавишу для закрытия"@,
        },
    }
}

/// The entry under the cursor, if any.
pub open spec fn current_entry_of(s: AppView) -> Option<FileEntryView> {
    match s.selected {
        Some(sel) => if sel < s.visible.len() && s.visible[sel as int] < s.raw_entries.len() {
            Some(s.raw_entries[s.visible[sel as int] as int])
        } else {
            None
        },
        None => None,
    }
}

proof fn lemma_limit_reached(
    entries: Seq<FileEntryView>,
    show_hidden: bool,
    needle: Seq<char>,
    i: int,
    n: int,
    t: usize,
)
    requires
        0 <= i <= n,
        shown_indices(entries, show_hidden, needle, i).len() >= t,
    ensures
        shown_indices(entries, show_hidden, needle, n).take(t as int) =~= shown_indices(
            entries,
            show_hidden,
            needle,
            i,
        ).take(t as int),
        shown_indices(entries, show_hidden, needle, n).len() >= t,
    decreases n - i,
{
    if n > i {
        lemma_limit_reached(entries, show_hidden, needle, i, n - 1, t);
    }
}

proof fn lemma_shown_bounds(entries: Seq<FileEntryView>, show_hidden: bool, needle: Seq<char>, n: int)
    requires
        0 <= n,
    ensures
        forall|k: int|
            0 <= k < shown_indices(entries, show_hidden, needle, n).len() ==> #[trigger] shown_indices(
                entries,
                show_hidden,
                needle,
                n,
            )[k] < n,
        shown_indices(entries, show_hidden, needle, n).len() <= n,
    decreases n,
{
    if n > 0 {
        lemma_shown_bounds(entries, show_hidden, needle, n - 1);
    }
}

/// `prompt`, a colon and a space, then `text`.
fn prompted(prompt: &str, text: &String) -> (r: String)
    ensures
        r@ == prompt@ + ": "@ + text@,
{
    let mut r = string_of(prompt);
    r.append(": ");
    r.append(text.as_str());
    r
}

impl App {
    /// The state is coherent: the marks hold each name once.
    pub open spec fn wf(&self) -> bool {
        self.marked_items.wf()
    }

    /// Recompute `visible` from `raw_entries` according to filter / hidden / top_n.
    pub fn build_visible(&mut self)
        requires
            old(self).wf(),
        ensures
            final(self).wf(),
            final(self)@ == rebuilt(old(self)@),
    {
        let ghost s = self@;
        let needle = to_lowercase(self.filter_query.as_str());
        let mut visible: Vec<usize> = Vec::new();
        let mut count: usize = 0;
        let n = self.raw_entries.len();
        let mut i: usize = 0;
        let mut done = false;
        while i < n && !done
            invariant
                n == self.raw_entries@.len(),
                self@ == s,
                needle@ == lowercase(s.filter_query),
                i <= n,
                count == visible@.len(),
                !done ==> visible@ == limit(
                    shown_indices(s.raw_entries, s.show_hidden, needle@, i as int),
                    s.top_n,
                ),
                done ==> visible@ == limit(
                    shown_indices(s.raw_entries, s.show_hidden, needle@, n as int),
                    s.top_n,
                ),
            decreases n - i + (if done { 0int } else { 1int }),
        {
            let ghost before = shown_indices(s.raw_entries, s.show_hidden, needle@, i as int);
            let entry = &self.raw_entries[i];
            let hidden_ok = self.show_hidden || !starts_with_dot(entry.name.as_str());
            let mut passes = hidden_ok;
            if passes && !needle.as_str().is_empty() {
                let lower = to_lowercase(entry.name.as_str());
                passes = contains_str(lower.as_str(), needle.as_str());
            }
            assert(s.raw_entries[i as int] == entry@);
            assert(passes == entry_shown(entry@, s.show_hidden, needle@));
            if passes {
                let full = match self.top_n {
                    Some(top) => count >= top,
                    None => false,
                };
                if full {
                    proof {
                        let t = s.top_n->0;
                        let sh_i = shown_indices(s.raw_entries, s.show_hidden, needle@, i as int);
                        let sh_n = shown_indices(s.raw_entries, s.show_hidden, needle@, n as int);
                        assert(sh_i.len() >= t);
                        lemma_limit_reached(s.raw_entries, s.show_hidden, needle@, i as int, n as int, t);
                        assert(sh_i.take(t as int) =~= limit(sh_i, s.top_n));
                        assert(sh_n.take(t as int) =~= limit(sh_n, s.top_n));
                    }
                    done = true;
                } else {
                    proof {
                        lemma_shown_bounds(s.raw_entries, s.show_hidden, needle@, i as int);
                    }
                    visible.push(i);
                    count = count + 1;
                    i = i + 1;
                }
            } else {
                i = i + 1;
            }
        }
        let len = visible.len();
        let max = len.saturating_sub(1);
        let cur: usize = match self.selected {
            Some(c) => c,
            None => 0,
        };
        if cur > max {
            self.selected = Some(max);
        }
        self.visible = visible;
    }

    /// Sorts the entries in the current sort mode, then recomputes what is
    /// visible.
    pub fn apply_sort(&mut self)
        requires
            old(self).wf(),
        ensures
            final(self).wf(),
            final(self)@ == resorted(old(self)@),
    {
        self.raw_entries = sort_entries(&self.raw_entries, self.sort_mode);
        self.build_visible();
    }

    /// The entry currently under the cursor, if any.
    pub fn current_entry(&self) -> (r: Option<&FileEntry>)
        ensures
            r is None <==> current_entry_of(self@) is None,
            r matches Some(e) ==> current_entry_of(self@) == Some(e@),
    {
        let sel = match self.selected {
            Some(s) => s,
            None => {
                return None;
            },
        };
        if sel >= self.visible.len() {
            return None;
        }
        let idx = self.visible[sel];
        if idx >= self.raw_entries.len() {
            return None;
        }
        Some(&self.raw_entries[idx])
    }

    /// Marks a scan of `current_path` as started and says what to scan.
    pub fn load_directory(&mut self) -> (req: ScanRequest)
        requires
            old(self).wf(),
        ensures
            final(self).wf(),
            final(self)@ == loading_started(old(self)@),
            req@ == request_of(final(self)@),
            req@.path == old(self)@.current_path,
            req@.ignored == old(self)@.config.ignored_dirs,
            req@.max_depth == old(self)@.max_depth,
    {
        self.loading = true;
        self.scanned_files_count = 0;
        self.scanning_path = self.current_path.clone();
        ScanRequest {
            path: self.current_path.clone(),
            ignored: clone_strings(&self.config.ignored_dirs),
            max_depth: self.max_depth,
        }
    }

    /// Moves to the directory `path`, dropping the filter and the marks, and
    /// starts scanning it.
    pub fn open_directory(&mut self, path: String) -> (req: ScanRequest)
        requires
            old(self).wf(),
        ensures
            final(self).wf(),
            final(self)@ == loading_started(opened(old(self)@, path@)),
            req@ == request_of(final(self)@),
            req@.path == path@,
            req@.ignored == old(self)@.config.ignored_dirs,
            req@.max_depth == old(self)@.max_depth,
    {
        self.current_path = path;
        self.filter_query = String::new();
        self.marked_items.clear();
        self.load_directory()
    }

    /// Moves up from the current directory, as `open_directory` does, to
    /// the directory `parent_target` names for the parent that
    /// `Path::parent` gives (`.` leads to `..`, `foo` to `foo/..`, `/a/b` to
    /// `/a`), and says what to scan then; where there is nothing above (the
    /// empty path, a root), nothing changes.
    pub fn go_to_parent(&mut self) -> (req: Option<ScanRequest>)
        requires
            old(self).wf(),
        ensures
            final(self).wf(),
            exists|parent: Option<Seq<char>>|
                #![trigger parent_target(old(self)@.current_path, parent)]
                parent_known(old(self)@.current_path, parent) && match parent_target(
                    old(self)@.current_path,
                    parent,
                ) {
                    None => req is None && final(self)@ == old(self)@,
                    Some(t) => req matches Some(q) && final(self)@ == loading_started(opened(old(self)@, t))
                        && q@ == request_of(final(self)@),
                },
            req is Some ==> final(self)@.current_path.len() > 0,
    {
        let parent = parent_dir(&self.current_path);
        let ghost pv: Option<Seq<char>> = match &parent {
            Some(p) => Some(p@),
            None => None,
        };
        let target = parent_target_of(&self.current_path, parent);
        proof {
            lemma_parent_target_not_empty(old(self)@.current_path, pv);
        }
        match target {
            Some(t) => {
                let q = self.open_directory(t);
                assert(parent_target(old(self)@.current_path, pv) is Some);
                Some(q)
            },
            None => {
                assert(parent_target(old(self)@.current_path, pv) is None);
                None
            },
        }
    }

    /// Applies the messages received from the running scan, in order;
    /// says whether the scan has finished.
    pub fn poll_scanner(&mut self, msgs: &Vec<ScanMessage>) -> (finished: bool)
        requires
            old(self).wf(),
        ensures
            final(self).wf(),
            final(self)@ == apply_messages(old(self)@, message_views(msgs@)),
            finished == has_finished(message_views(msgs@)),
    {
        let ghost s0 = self@;
        let ghost ms = message_views(msgs@);
        let mut finished = false;
        let mut i: usize = 0;
        assert(ms.take(0) =~= Seq::<MessageView>::empty());
        while i < msgs.len()
            invariant
                i <= msgs@.len(),
                ms == message_views(msgs@),
                self.wf(),
                self@ == apply_messages(s0, ms.take(i as int)),
                finished == has_finished(ms.take(i as int)),
            decreases msgs@.len() - i,
        {
            assert(ms.take(i + 1).drop_last() =~= ms.take(i as int));
            assert(ms.take(i + 1).last() == msgs@[i as int]@);
            match &msgs[i] {
                ScanMessage::Progress { scanned_files, current_path } => {
                    self.scanned_files_count = *scanned_files;
                    self.scanning_path = current_path.clone();
                },
                ScanMessage::Finished { entries, total_size } => {
                    self.raw_entries = duplicate_entries(entries);
                    self.total_size = *total_size;
                    self.apply_sort();
                    self.selected = Some(0);
                    self.loading = false;
                    finished = true;
                },
            }
            proof {
                let t = ms.take(i + 1);
                if has_finished(t) && !has_finished(ms.take(i as int)) {
                    let k = choose|k: int| 0 <= k < t.len() && #[trigger] t[k] is Finished;
                    if k < i {
                        assert(ms.take(i as int)[k] is Finished);
                    }
                }
                if has_finished(ms.take(i as int)) {
                    let k = choose|k: int| 0 <= k < i && #[trigger] ms.take(i as int)[k] is Finished;
                    assert(t[k] is Finished);
                }
                if msgs@[i as int] is Finished {
                    assert(t[i as int] is Finished);
                }
            }
            i = i + 1;
        }
        assert(ms.take(msgs@.len() as int) =~= ms);
        finished
    }

    /// A browser of `path` with the given limits and settings, and the scan
    /// of `path` that it starts with.
    pub fn new(path: String, max_depth: Option<usize>, top_n: Option<usize>, config: Config) -> (r: (App, ScanRequest))
        ensures
            r.0.wf(),
            r.0@ == loading_started(initial_view(path@, max_depth, top_n, config@)),
            r.1@ == request_of(r.0@),
            r.1@.path == path@,
            r.1@.ignored == config@.ignored_dirs,
            r.1@.max_depth == max_depth,
    {
        let ru = string_of("ru");
        let lang = if config.default_lang == ru {
            Language::Russian
        } else {
            Language::English
        };
        let show_hidden = config.show_hidden;
        let mut app = App {
            current_path: path,
            raw_entries: Vec::new(),
            visible: Vec::new(),
            selected: Some(0),
            mode: AppMode::Browse,
            input_buffer: String::new(),
            filter_query: String::new(),
            loading: false,
            scanned_files_count: 0,
            scanning_path: String::new(),
            total_size: 0,
            sort_mode: SortMode::Size,
            lang,
            show_hidden,
            marked_items: NameSet::new(),
            notification_msg: None,
            help_scroll: 0,
            config,
            max_depth,
            top_n,
        };
        assert(entry_views(app.raw_entries@) =~= Seq::<FileEntryView>::empty());
        let req = app.load_directory();
        (app, req)
    }

    /// Records how exporting the report went, in the interface language.
    pub fn export_report(&mut self, ok: bool)
        ensures
            final(self).wf() == old(self).wf(),
            final(self)@ == (AppView { notification_msg: Some(export_message(old(self)@.lang, ok)), ..old(self)@ }),
    {
        let msg = match self.lang {
            Language::English => if ok {
                string_of("Report exported to rustdu_report.json!")
            } else {
                string_of("Export failed!")
            },
            Language::Russian => if ok {
                string_of("Отчет успешно экспортирован в rustdu_report.json!")
            } else {
                string_of("Ошибка экспорта!")
            },
        };
        self.notification_msg = Some(msg);
    }

    /// The text of the bottom bar.
    pub fn status_line(&self) -> (r: String)
        ensures
            r@ == status_text(self@),
    {
        match &self.notification_msg {
            Some(msg) => msg.clone(),
            None => match (self.mode, self.lang) {
                (AppMode::Browse, Language::English) => string_of("?  — all keybindings and legend   |   q  — quit"),
                (AppMode::Browse, Language::Russian) => string_of("?  — все клавиши и легенда   |   q  — выход"),
                (AppMode::ConfirmDelete, Language::English) => string_of("Delete selected/marked items? (y - yes, n - no)"),
                (AppMode::ConfirmDelete, Language::Russian) => string_of("Удалить выбранные элементы? (y - да, n - нет)"),
                (AppMode::InputPath, Language::English) => prompted("Enter path", &self.input_buffer),
                (AppMode::InputPath, Language::Russian) => prompted("Введите путь", &self.input_buffer),
                (AppMode::Filter, Language::English) => prompted("Filter query", &self.filter_query),
                (AppMode::Filter, Language::Russian) => prompted("Фильтр", &self.filter_query),
                (AppMode::Help, Language::English) => string_of("↑/↓ scroll · Esc / q / ? close"),
                (AppMode::Help, Language::Russian) => string_of("↑/↓ прокрутка · Esc / q / ? закрыть"),
                (AppMode::Plot, Language::English) => string_of("Press any key to close"),
                (AppMode::Plot, Language::Russian) => string_of("Нажмите любую клавишу для закрытия"),
            },
        }
    }

    /// Keeps the help scroll offset at most `max_scroll`; returns it.
    pub fn clamp_help_scroll(&mut self, max_scroll: u16) -> (scroll: u16)
        ensures
            final(self).wf() == old(self).wf(),
            scroll == (if old(self).help_scroll < max_scroll { old(self).help_scroll } else { max_scroll }),
            final(self)@ == (AppView { help_scroll: scroll, ..old(self)@ }),
    {
        let scroll = if self.help_scroll < max_scroll {
            self.help_scroll
        } else {
            max_scroll
        };
        self.help_scroll = scroll;
        scroll
    }
}

} // verus!
