//! Key handling for `App`.
//!
//! `handle_key` is the single entry point for each key press; it dispatches
//! to the handler of the current mode and says what the caller has to do
//! outside the browser (quit, scan, delete, export, ...).

use vstd::prelude::*;
use super::{
    App, AppMode, AppView, Language, RequestView, ScanRequest, SortMode, current_entry_of,
    last_row, loading_started, opened, rebuilt, request_of, resorted,
};
use crate::text::{pop_char, push_char, views_of};

verus! {

/// A key press, as the browser distinguishes them.
#[derive(Clone, Copy, Debug, PartialEq, Eq, Structural)]
pub enum Key {
    Char(char),
    Up,
    Down,
    Enter,
    Backspace,
    Esc,
    PageUp,
    PageDown,
    Home,
    End,
    Other,
}

/// What the caller has to do after a key press.
pub enum Command {
    Nothing,
    /// Leave the application.
    Quit,
    /// Scan as requested.
    Scan(ScanRequest),
    /// Empty the size cache, then scan as requested.
    Refresh(ScanRequest),
    /// Open the parent of the current directory, if it has one
    /// (`App::go_to_parent`).
    GoToParent,
    /// Open this path if it names an existing directory.
    GoToPath(String),
    /// Write the report of the current listing.
    Export,
    /// Delete these entries of the current directory, then scan as requested.
    Delete(Vec<String>, ScanRequest),
}

/// What a `Command` holds, as plain values.
pub enum CommandView {
    Nothing,
    Quit,
    Scan(RequestView),
    Refresh(RequestView),
    GoToParent,
    GoToPath(Seq<char>),
    Export,
    Delete(Set<Seq<char>>, RequestView),
}

impl View for Command {
    type V = CommandView;

    open spec fn view(&self) -> CommandView {
        match self {
            Command::Nothing => CommandView::Nothing,
            Command::Quit => CommandView::Quit,
            Command::Scan(r) => CommandView::Scan(r@),
            Command::Refresh(r) => CommandView::Refresh(r@),
            Command::GoToParent => CommandView::GoToParent,
            Command::GoToPath(p) => CommandView::GoToPath(p@),
            Command::Export => CommandView::Export,
            Command::Delete(names, r) => CommandView::Delete(views_of(names@).to_set(), r@),
        }
    }
}

/// The other language.
pub open spec fn toggled(l: Language) -> Language {
    match l {
        Language::English => Language::Russian,
        Language::Russian => Language::English,
    }
}

/// `s` in mode `m`.
pub open spec fn in_mode(s: AppView, m: AppMode) -> AppView {
    AppView { mode: m, ..s }
}

/// The cursor one row down, wrapping from the last row to the first.
pub open spec fn cursor_down(sel: Option<usize>, len: nat) -> usize {
    let i: usize = match sel {
        Some(c) => c,
        None => 0,
    };
    if i >= last_row(len) {
        0
    } else {
        (i + 1) as usize
    }
}

/// The cursor one row up, wrapping from the first row to the last.
pub open spec fn cursor_up(sel: Option<usize>, len: nat) -> usize {
    let i: usize = match sel {
        Some(c) => c,
        None => 0,
    };
    if i == 0 {
        last_row(len)
    } else {
        (i - 1) as usize
    }
}

/// `s` after a character key in browse mode.
pub open spec fn browse_char(s: AppView, c: char) -> (AppView, CommandView) {
    if c == ' ' {
        match current_entry_of(s) {
            Some(e) => (
                AppView {
                    marked_items: if s.marked_items.contains(e.name) {
                        s.marked_items.remove(e.name)
                    } else {
                        s.marked_items.insert(e.name)
                    },
                    ..s
                },
                CommandView::Nothing,
            ),
            None => (s, CommandView::Nothing),
        }
    } else if c == 'd' {
        if s.marked_items != Set::<Seq<char>>::empty() {
            (in_mode(s, AppMode::ConfirmDelete), CommandView::Nothing)
        } else {
            match current_entry_of(s) {
                Some(e) => (
                    AppView {
                        marked_items: s.marked_items.insert(e.name),
                        mode: AppMode::ConfirmDelete,
                        ..s
                    },
                    CommandView::Nothing,
                ),
                None => (s, CommandView::Nothing),
            }
        }
    } else if c == 'h' {
        (rebuilt(AppView { show_hidden: !s.show_hidden, ..s }), CommandView::Nothing)
    } else if c == 'e' {
        (s, CommandView::Export)
    } else if c == 'p' {
        (in_mode(s, AppMode::Plot), CommandView::Nothing)
    } else if c == 'g' {
        (AppView { input_buffer: Seq::empty(), mode: AppMode::InputPath, ..s }, CommandView::Nothing)
    } else if c == '/' {
        (in_mode(s, AppMode::Filter), CommandView::Nothing)
    } else if c == 's' {
        (resorted(AppView { sort_mode: SortMode::Size, ..s }), CommandView::Nothing)
    } else if c == 'n' {
        (resorted(AppView { sort_mode: SortMode::Name, ..s }), CommandView::Nothing)
    } else if c == 't' {
        (resorted(AppView { sort_mode: SortMode::Modified, ..s }), CommandView::Nothing)
    } else if c == 'r' {
        (loading_started(s), CommandView::Refresh(request_of(loading_started(s))))
    } else if c == '?' {
        (AppView { mode: AppMode::Help, help_scroll: 0, ..s }, CommandView::Nothing)
    } else {
        (s, CommandView::Nothing)
    }
}

/// `s` after a key in browse mode (other than those that quit).
pub open spec fn browse_step(s: AppView, key: Key) -> (AppView, CommandView) {
    match key {
        Key::Down => (
            AppView { selected: Some(cursor_down(s.selected, s.visible.len())), ..s },
            CommandView::Nothing,
        ),
        Key::Up => (
            AppView { selected: Some(cursor_up(s.selected, s.visible.len())), ..s },
            CommandView::Nothing,
        ),
        Key::Enter => match current_entry_of(s) {
            Some(e) => if e.is_dir {
                let t = loading_started(opened(s, e.path));
                (t, CommandView::Scan(request_of(t)))
            } else {
                (s, CommandView::Nothing)
            },
            None => (s, CommandView::Nothing),
        },
        Key::Home => (AppView { selected: Some(0usize), ..s }, CommandView::Nothing),
        Key::End => (AppView { selected: Some(last_row(s.visible.len())), ..s }, CommandView::Nothing),
        Key::Backspace => (s, CommandView::GoToParent),
        Key::Char(c) => browse_char(s, c),
        _ => (s, CommandView::Nothing),
    }
}

/// `s` after a key while a deletion waits for confirmation: `y` deletes
/// the marked entries and rescans, `n` or Esc cancels.
pub open spec fn confirm_step(s: AppView, key: Key) -> (AppView, CommandView) {
    if key == Key::Char('y') {
        let t = loading_started(AppView { marked_items: Set::empty(), ..s });
        (in_mode(t, AppMode::Browse), CommandView::Delete(s.marked_items, request_of(t)))
    } else if key == Key::Char('n') || key == Key::Esc {
        (in_mode(s, AppMode::Browse), CommandView::Nothing)
    } else {
        (s, CommandView::Nothing)
    }
}

/// `s` after a key while a path is typed.
pub open spec fn input_step(s: AppView, key: Key) -> (AppView, CommandView) {
    match key {
        Key::Char(c) => (AppView { input_buffer: s.input_buffer.push(c), ..s }, CommandView::Nothing),
        Key::Backspace => (
            AppView {
                input_buffer: if s.input_buffer.len() > 0 {
                    s.input_buffer.drop_last()
                } else {
                    s.input_buffer
                },
                ..s
            },
            CommandView::Nothing,
        ),
        Key::Enter => (
            AppView { mode: AppMode::Browse, input_buffer: Seq::empty(), ..s },
            CommandView::GoToPath(s.input_buffer),
        ),
        Key::Esc => (
            AppView { mode: AppMode::Browse, input_buffer: Seq::empty(), ..s },
            CommandView::Nothing,
        ),
        _ => (s, CommandView::Nothing),
    }
}

/// `s` after a key while the filter is typed; the visible rows follow the
/// filter as it changes. Enter keeps the filter, Esc clears it.
pub open spec fn filter_step(s: AppView, key: Key) -> (AppView, CommandView) {
    match key {
        Key::Char(c) => (
            rebuilt(AppView { filter_query: s.filter_query.push(c), ..s }),
            CommandView::Nothing,
        ),
        Key::Backspace => (
            rebuilt(
                AppView {
                    filter_query: if s.filter_query.len() > 0 {
                        s.filter_query.drop_last()
                    } else {
                        s.filter_query
                    },
                    ..s
                },
            ),
            CommandView::Nothing,
        ),
        Key::Enter => (in_mode(s, AppMode::Browse), CommandView::Nothing),
        Key::Esc => (
            rebuilt(AppView { filter_query: Seq::empty(), mode: AppMode::Browse, ..s }),
            CommandView::Nothing,
        ),
        _ => (s, CommandView::Nothing),
    }
}

/// `x - d`, or 0.
pub open spec fn scroll_back(x: u16, d: u16) -> u16 {
    if x < d {
        0
    } else {
        (x - d) as u16
    }
}

/// `x + d`, or `u16::MAX`.
pub open spec fn scroll_on(x: u16, d: u16) -> u16 {
    if x + d > u16::MAX {
        u16::MAX
    } else {
        (x + d) as u16
    }
}

/// `s` after a key in the help popup: the scroll keys move it, Esc, `q`,
/// `?` and Enter close it, every other key is ignored.
pub open spec fn help_step(s: AppView, key: Key) -> AppView {
    if key == Key::Up || key == Key::Char('k') {
        AppView { help_scroll: scroll_back(s.help_scroll, 1), ..s }
    } else if key == Key::Down || key == Key::Char('j') {
        AppView { help_scroll: scroll_on(s.help_scroll, 1), ..s }
    } else if key == Key::PageUp {
        AppView { help_scroll: scroll_back(s.help_scroll, 8), ..s }
    } else if key == Key::PageDown {
        AppView { help_scroll: scroll_on(s.help_scroll, 8), ..s }
    } else if key == Key::Home {
        AppView { help_scroll: 0, ..s }
    } else if key == Key::End {
        AppView { help_scroll: u16::MAX, ..s }
    } else if key == Key::Esc || key == Key::Char('q') || key == Key::Char('?') || key == Key::Enter {
        AppView { mode: AppMode::Browse, help_scroll: 0, ..s }
    } else {
        s
    }
}

/// The key toggles the language: `l`, outside the modes where text is
/// typed.
pub open spec fn switches_language(mode: AppMode, key: Key) -> bool {
    key == Key::Char('l') && mode != AppMode::InputPath && mode != AppMode::Filter
}

/// `s` after a key press, and what the caller has to do. The notice is
/// cleared first; Esc or `q` quit only from browse mode; in the plot any key
/// returns to browse mode, and `l` there switches the language as well.
pub open spec fn step(s: AppView, key: Key) -> (AppView, CommandView) {
    let s0 = AppView { notification_msg: None, ..s };
    if switches_language(s.mode, key) {
        (
            AppView {
                lang: toggled(s.lang),
                mode: if s.mode == AppMode::Plot {
                    AppMode::Browse
                } else {
                    s.mode
                },
                ..s0
            },
            CommandView::Nothing,
        )
    } else {
        match s.mode {
            AppMode::Browse => if key == Key::Esc || key == Key::Char('q') {
                (s0, CommandView::Quit)
            } else {
                browse_step(s0, key)
            },
            AppMode::ConfirmDelete => confirm_step(s0, key),
            AppMode::InputPath => input_step(s0, key),
            AppMode::Filter => filter_step(s0, key),
            AppMode::Help => (help_step(s0, key), CommandView::Nothing),
            AppMode::Plot => (in_mode(s0, AppMode::Browse), CommandView::Nothing),
        }
    }
}

impl App {
    /// Handles one key press; says what the caller has to do next.
    pub fn handle_key(&mut self, key: Key) -> (cmd: Command)
        requires
            old(self).wf(),
        ensures
            final(self).wf(),
            (final(self)@, cmd@) == step(old(self)@, key),
            cmd matches Command::Delete(names, _) ==> views_of(names@).no_duplicates(),
    {
        self.notification_msg = None;
        if key == Key::Char('l') && self.mode != AppMode::InputPath && self.mode != AppMode::Filter {
            self.lang = match self.lang {
                Language::English => Language::Russian,
                Language::Russian => Language::English,
            };
            if self.mode == AppMode::Plot {
                self.mode = AppMode::Browse;
            }
            return Command::Nothing;
        }
        match self.mode {
            AppMode::Browse => {
                if key == Key::Esc || key == Key::Char('q') {
                    return Command::Quit;
                }
                self.handle_browse(key)
            },
            AppMode::ConfirmDelete => self.handle_confirm_delete(key),
            AppMode::InputPath => self.handle_input_path(key),
            AppMode::Filter => self.handle_filter(key),
            AppMode::Help => {
                self.handle_help(key);
                Command::Nothing
            },
            AppMode::Plot => {
                self.mode = AppMode::Browse;
                Command::Nothing
            },
        }
    }

    /// Handles a key in browse mode; `handle_key` answers `q`, Esc and `l`
    /// before it.
    pub fn handle_browse(&mut self, key: Key) -> (cmd: Command)
        requires
            old(self).wf(),
        ensures
            final(self).wf(),
            (final(self)@, cmd@) == browse_step(old(self)@, key),
    {
        match key {
            Key::Down => {
                let max = self.visible.len().saturating_sub(1);
                let i: usize = match self.selected {
                    Some(c) => c,
                    None => 0,
                };
                self.selected = Some(if i >= max { 0 } else { i + 1 });
                Command::Nothing
            },
            Key::Up => {
                let max = self.visible.len().saturating_sub(1);
                let i: usize = match self.selected {
                    Some(c) => c,
                    None => 0,
                };
                self.selected = Some(if i == 0 { max } else { i - 1 });
                Command::Nothing
            },
            Key::Enter => {
                let target = match self.current_entry() {
                    Some(entry) => if entry.is_dir {
                        Some(entry.path.clone())
                    } else {
                        None
                    },
                    None => None,
                };
                match target {
                    Some(path) => Command::Scan(self.open_directory(path)),
                    None => Command::Nothing,
                }
            },
            Key::Home => {
                self.selected = Some(0);
                Command::Nothing
            },
            Key::End => {
                self.selected = Some(self.visible.len().saturating_sub(1));
                Command::Nothing
            },
            Key::Backspace => Command::GoToParent,
            Key::Char(c) => self.handle_browse_char(c),
            _ => Command::Nothing,
        }
    }

    fn handle_browse_char(&mut self, c: char) -> (cmd: Command)
        requires
            old(self).wf(),
        ensures
            final(self).wf(),
            (final(self)@, cmd@) == browse_char(old(self)@, c),
    {
        if c == ' ' {
            let name = match self.current_entry() {
                Some(entry) => Some(entry.name.clone()),
                None => None,
            };
            match name {
                Some(name) => {
                    if self.marked_items.contains(&name) {
                        self.marked_items.remove(&name);
                    } else {
                        self.marked_items.insert(name);
                    }
                },
                None => {},
            }
            Command::Nothing
        } else if c == 'd' {
            if !self.marked_items.is_empty() {
                self.mode = AppMode::ConfirmDelete;
            } else {
                let name = match self.current_entry() {
                    Some(entry) => Some(entry.name.clone()),
                    None => None,
                };
                match name {
                    Some(name) => {
                        self.marked_items.insert(name);
                        self.mode = AppMode::ConfirmDelete;
                    },
                    None => {},
                }
            }
            Command::Nothing
        } else if c == 'h' {
            self.show_hidden = !self.show_hidden;
            self.build_visible();
            Command::Nothing
        } else if c == 'e' {
            Command::Export
        } else if c == 'p' {
            self.mode = AppMode::Plot;
            Command::Nothing
        } else if c == 'g' {
            self.input_buffer = String::new();
            self.mode = AppMode::InputPath;
            Command::Nothing
        } else if c == '/' {
            self.mode = AppMode::Filter;
            Command::Nothing
        } else if c == 's' {
            self.sort_mode = SortMode::Size;
            self.apply_sort();
            Command::Nothing
        } else if c == 'n' {
            self.sort_mode = SortMode::Name;
            self.apply_sort();
            Command::Nothing
        } else if c == 't' {
            self.sort_mode = SortMode::Modified;
            self.apply_sort();
            Command::Nothing
        } else if c == 'r' {
            Command::Refresh(self.load_directory())
        } else if c == '?' {
            self.mode = AppMode::Help;
            self.help_scroll = 0;
            Command::Nothing
        } else {
            Command::Nothing
        }
    }

    fn handle_confirm_delete(&mut self, key: Key) -> (cmd: Command)
        requires
            old(self).wf(),
        ensures
            final(self).wf(),
            (final(self)@, cmd@) == confirm_step(old(self)@, key),
            cmd matches Command::Delete(names, _) ==> views_of(names@).no_duplicates(),
    {
        if key == Key::Char('y') {
            let names = self.marked_items.drain();
            let req = self.load_directory();
            self.mode = AppMode::Browse;
            Command::Delete(names, req)
        } else if key == Key::Char('n') || key == Key::Esc {
            self.mode = AppMode::Browse;
            Command::Nothing
        } else {
            Command::Nothing
        }
    }

    fn handle_input_path(&mut self, key: Key) -> (cmd: Command)
        requires
            old(self).wf(),
        ensures
            final(self).wf(),
            (final(self)@, cmd@) == input_step(old(self)@, key),
    {
        match key {
            Key::Char(c) => {
                push_char(&mut self.input_buffer, c);
                Command::Nothing
            },
            Key::Backspace => {
                pop_char(&mut self.input_buffer);
                Command::Nothing
            },
            Key::Enter => {
                let mut path = String::new();
                std::mem::swap(&mut path, &mut self.input_buffer);
                self.mode = AppMode::Browse;
                Command::GoToPath(path)
            },
            Key::Esc => {
                self.mode = AppMode::Browse;
                self.input_buffer = String::new();
                Command::Nothing
            },
            _ => Command::Nothing,
        }
    }

    fn handle_filter(&mut self, key: Key) -> (cmd: Command)
        requires
            old(self).wf(),
        ensures
            final(self).wf(),
            (final(self)@, cmd@) == filter_step(old(self)@, key),
    {
        match key {
            Key::Char(c) => {
                push_char(&mut self.filter_query, c);
                self.build_visible();
            },
            Key::Backspace => {
                pop_char(&mut self.filter_query);
                self.build_visible();
            },
            Key::Enter => {
                self.mode = AppMode::Browse;
            },
            Key::Esc => {
                self.filter_query = String::new();
                self.mode = AppMode::Browse;
                self.build_visible();
            },
            _ => {},
        }
        Command::Nothing
    }

    fn handle_help(&mut self, key: Key)
        requires
            old(self).wf(),
        ensures
            final(self).wf(),
            final(self)@ == help_step(old(self)@, key),
    {
        if key == Key::Up || key == Key::Char('k') {
            self.help_scroll = self.help_scroll.saturating_sub(1);
        } else if key == Key::Down || key == Key::Char('j') {
            self.help_scroll = self.help_scroll.saturating_add(1);
        } else if key == Key::PageUp {
            self.help_scroll = self.help_scroll.saturating_sub(8);
        } else if key == Key::PageDown {
            self.help_scroll = self.help_scroll.saturating_add(8);
        } else if key == Key::Home {
            self.help_scroll = 0;
        } else if key == Key::End {
            self.help_scroll = u16::MAX;
        } else if key == Key::Esc || key == Key::Char('q') || key == Key::Char('?') || key == Key::Enter {
            self.mode = AppMode::Browse;
            self.help_scroll = 0;
        }
    }
}

} // verus!
