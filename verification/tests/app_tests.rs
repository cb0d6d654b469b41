use rustdu::app::handlers::{Command, Key};
use rustdu::app::{App, AppMode, Language, ScanRequest, SortMode};
use rustdu::config::Config;
use rustdu::paths::{ends_with_dotdot, parent_target_of};
use rustdu::scanner::{FileEntry, ScanMessage};
use rustdu::sorting::{largest_entries, sort_entries};
use rustdu::text::{contains_str, starts_with_dot};
use rustdu::ui::{
    centered_popup, color_for_size, help_max_scroll, help_popup_size, help_position, size_unit,
    SizeColor, SizeUnit,
};

fn entry(name: &str, size: u64, is_dir: bool, modified: Option<u64>) -> FileEntry {
    FileEntry { name: name.to_string(), path: format!("/home/{}", name), size, is_dir, modified }
}

fn sample_entries() -> Vec<FileEntry> {
    vec![
        entry("b.txt", 10, false, Some(5)),
        entry("Docs", 500, true, Some(50)),
        entry(".hidden", 70, false, None),
        entry("a.txt", 10, false, Some(60)),
        entry("music", 300, true, Some(1)),
    ]
}

fn names(app: &App) -> Vec<String> {
    app.visible.iter().map(|&i| app.raw_entries[i].name.clone()).collect()
}

fn loaded(top_n: Option<usize>) -> App {
    let (mut app, req) = App::new("/home".to_string(), None, top_n, Config::default());
    assert_eq!(req.path, "/home");
    let done = app.poll_scanner(&vec![ScanMessage::Finished { entries: sample_entries(), total_size: 890 }]);
    assert!(done);
    app
}

#[test]
fn config_default_values() {
    let c = Config::default();
    assert_eq!(c.default_lang, "en");
    assert!(!c.show_hidden);
    assert_eq!(c.ignored_dirs, vec!["node_modules", ".git", "target", ".cache"]);
}

#[test]
fn new_app_starts_scanning() {
    let mut cfg = Config::default();
    cfg.default_lang = "ru".to_string();
    cfg.show_hidden = true;
    let (app, req) = App::new("/tmp".to_string(), Some(3), Some(2), cfg);
    assert_eq!(app.lang, Language::Russian);
    assert!(app.show_hidden);
    assert!(app.loading);
    assert_eq!(app.scanning_path, "/tmp");
    assert_eq!(app.selected, Some(0));
    assert_eq!(app.mode, AppMode::Browse);
    let ScanRequest { path, ignored, max_depth } = req;
    assert_eq!(path, "/tmp");
    assert_eq!(ignored.len(), 4);
    assert_eq!(max_depth, Some(3));
    let (app2, _) = App::new("/tmp".to_string(), None, None, Config::default());
    assert_eq!(app2.lang, Language::English);
}

#[test]
fn finished_scan_sorts_and_hides_dotfiles() {
    let app = loaded(None);
    assert!(!app.loading);
    assert_eq!(app.total_size, 890);
    assert_eq!(names(&app), vec!["Docs", "music", "b.txt", "a.txt"]);
    assert_eq!(app.raw_entries.len(), 5);
}

#[test]
fn progress_messages_are_recorded() {
    let (mut app, _) = App::new("/home".to_string(), None, None, Config::default());
    let done = app.poll_scanner(&vec![
        ScanMessage::Progress { scanned_files: 10, current_path: "/home/a".to_string() },
        ScanMessage::Progress { scanned_files: 20, current_path: "/home/b".to_string() },
    ]);
    assert!(!done);
    assert!(app.loading);
    assert_eq!(app.scanned_files_count, 20);
    assert_eq!(app.scanning_path, "/home/b");
}

#[test]
fn top_n_limits_visible_rows() {
    let app = loaded(Some(2));
    assert_eq!(names(&app), vec!["Docs", "music"]);
}

#[test]
fn quit_only_from_browse() {
    let mut app = loaded(None);
    app.handle_key(Key::Char('?'));
    assert_eq!(app.mode, AppMode::Help);
    assert!(matches!(app.handle_key(Key::Esc), Command::Nothing));
    assert_eq!(app.mode, AppMode::Browse);
    app.handle_key(Key::Char('p'));
    assert_eq!(app.mode, AppMode::Plot);
    assert!(matches!(app.handle_key(Key::Esc), Command::Nothing));
    assert_eq!(app.mode, AppMode::Browse);
    assert!(matches!(app.handle_key(Key::Char('q')), Command::Quit));
    assert!(matches!(app.handle_key(Key::Esc), Command::Quit));
}

#[test]
fn help_ignores_browse_keys_and_scrolls() {
    let mut app = loaded(None);
    app.handle_key(Key::Char('?'));
    let hidden = app.show_hidden;
    assert!(matches!(app.handle_key(Key::Char(' ')), Command::Nothing));
    assert!(matches!(app.handle_key(Key::Char('h')), Command::Nothing));
    assert!(matches!(app.handle_key(Key::Char('r')), Command::Nothing));
    assert_eq!(app.show_hidden, hidden);
    assert_eq!(app.mode, AppMode::Help);
    app.handle_key(Key::Up);
    assert_eq!(app.help_scroll, 0);
    app.handle_key(Key::PageDown);
    app.handle_key(Key::Char('j'));
    assert_eq!(app.help_scroll, 9);
    app.handle_key(Key::End);
    assert_eq!(app.help_scroll, u16::MAX);
    app.handle_key(Key::Down);
    assert_eq!(app.help_scroll, u16::MAX);
    assert_eq!(app.clamp_help_scroll(12), 12);
    app.handle_key(Key::Home);
    assert_eq!(app.help_scroll, 0);
    app.handle_key(Key::Enter);
    assert_eq!(app.mode, AppMode::Browse);
}

#[test]
fn cursor_wraps_around() {
    let mut app = loaded(None);
    assert_eq!(app.selected, Some(0));
    app.handle_key(Key::Up);
    assert_eq!(app.selected, Some(3));
    app.handle_key(Key::Down);
    assert_eq!(app.selected, Some(0));
    app.handle_key(Key::Down);
    assert_eq!(app.selected, Some(1));
    app.handle_key(Key::Up);
    assert_eq!(app.selected, Some(0));
}

#[test]
fn language_toggles_except_while_typing() {
    let mut app = loaded(None);
    app.handle_key(Key::Char('l'));
    assert_eq!(app.lang, Language::Russian);
    app.handle_key(Key::Char('l'));
    assert_eq!(app.lang, Language::English);
    app.handle_key(Key::Char('/'));
    app.handle_key(Key::Char('l'));
    assert_eq!(app.lang, Language::English);
    assert_eq!(app.filter_query, "l");
}

#[test]
fn filter_is_case_insensitive_and_follows_typing() {
    let mut app = loaded(None);
    app.handle_key(Key::Char('/'));
    assert_eq!(app.mode, AppMode::Filter);
    app.handle_key(Key::Char('D'));
    app.handle_key(Key::Char('O'));
    assert_eq!(names(&app), vec!["Docs"]);
    app.handle_key(Key::Backspace);
    assert_eq!(app.filter_query, "D");
    assert_eq!(names(&app), vec!["Docs"]);
    app.handle_key(Key::Backspace);
    app.handle_key(Key::Backspace);
    assert_eq!(names(&app).len(), 4);
    app.handle_key(Key::Char('t'));
    assert_eq!(names(&app), vec!["b.txt", "a.txt"]);
    app.handle_key(Key::Enter);
    assert_eq!(app.mode, AppMode::Browse);
}

#[test]
fn filter_shrinking_clamps_cursor() {
    let mut app = loaded(None);
    app.handle_key(Key::Up);
    assert_eq!(app.selected, Some(3));
    app.handle_key(Key::Char('/'));
    app.handle_key(Key::Char('x'));
    assert_eq!(names(&app), vec!["b.txt", "a.txt"]);
    assert_eq!(app.selected, Some(1));
}

#[test]
fn hidden_toggle_and_sort_modes() {
    let mut app = loaded(None);
    app.handle_key(Key::Char('h'));
    assert_eq!(names(&app), vec!["Docs", "music", ".hidden", "b.txt", "a.txt"]);
    app.handle_key(Key::Char('n'));
    assert_eq!(app.sort_mode, SortMode::Name);
    assert_eq!(names(&app), vec![".hidden", "Docs", "a.txt", "b.txt", "music"]);
    app.handle_key(Key::Char('t'));
    assert_eq!(names(&app), vec!["a.txt", "Docs", "b.txt", "music", ".hidden"]);
    app.handle_key(Key::Char('s'));
    assert_eq!(names(&app), vec!["Docs", "music", ".hidden", "a.txt", "b.txt"]);
}

#[test]
fn marking_and_deleting() {
    let mut app = loaded(None);
    app.handle_key(Key::Char(' '));
    assert!(app.marked_items.contains(&"Docs".to_string()));
    app.handle_key(Key::Char(' '));
    assert!(app.marked_items.is_empty());
    app.handle_key(Key::Char(' '));
    app.handle_key(Key::Down);
    app.handle_key(Key::Char(' '));
    app.handle_key(Key::Char('d'));
    assert_eq!(app.mode, AppMode::ConfirmDelete);
    match app.handle_key(Key::Char('y')) {
        Command::Delete(mut names, req) => {
            names.sort();
            assert_eq!(names, vec!["Docs".to_string(), "music".to_string()]);
            assert_eq!(req.path, "/home");
        }
        _ => panic!("expected a deletion"),
    }
    assert!(app.marked_items.is_empty());
    assert!(app.loading);
    assert_eq!(app.mode, AppMode::Browse);
}

#[test]
fn delete_without_marks_takes_current_entry_and_can_be_cancelled() {
    let mut app = loaded(None);
    app.handle_key(Key::Down);
    app.handle_key(Key::Char('d'));
    assert_eq!(app.mode, AppMode::ConfirmDelete);
    assert!(app.marked_items.contains(&"music".to_string()));
    assert!(matches!(app.handle_key(Key::Char('n')), Command::Nothing));
    assert_eq!(app.mode, AppMode::Browse);
    assert!(app.marked_items.contains(&"music".to_string()));
}

#[test]
fn enter_opens_directories_only() {
    let mut app = loaded(None);
    app.handle_key(Key::Char(' '));
    match app.handle_key(Key::Enter) {
        Command::Scan(req) => assert_eq!(req.path, "/home/Docs"),
        _ => panic!("expected a scan"),
    }
    assert_eq!(app.current_path, "/home/Docs");
    assert!(app.marked_items.is_empty());
    assert!(app.loading);
    let mut app = loaded(None);
    app.handle_key(Key::Down);
    app.handle_key(Key::Down);
    assert!(matches!(app.handle_key(Key::Enter), Command::Nothing));
    assert!(matches!(app.handle_key(Key::Backspace), Command::GoToParent));
}

#[test]
fn typing_a_path() {
    let mut app = loaded(None);
    app.handle_key(Key::Char('g'));
    assert_eq!(app.mode, AppMode::InputPath);
    for c in "/tmpx".chars() {
        app.handle_key(Key::Char(c));
    }
    app.handle_key(Key::Backspace);
    match app.handle_key(Key::Enter) {
        Command::GoToPath(p) => assert_eq!(p, "/tmp"),
        _ => panic!("expected a path"),
    }
    assert_eq!(app.mode, AppMode::Browse);
    assert_eq!(app.input_buffer, "");
    let req = app.open_directory("/tmp".to_string());
    assert_eq!(req.path, "/tmp");
    assert_eq!(app.current_path, "/tmp");
    app.handle_key(Key::Char('g'));
    app.handle_key(Key::Char('z'));
    app.handle_key(Key::Esc);
    assert_eq!(app.input_buffer, "");
    assert_eq!(app.mode, AppMode::Browse);
}

#[test]
fn refresh_and_export_commands() {
    let mut app = loaded(None);
    assert!(matches!(app.handle_key(Key::Char('r')), Command::Refresh(_)));
    assert!(app.loading);
    assert!(matches!(app.handle_key(Key::Char('e')), Command::Export));
    app.export_report(true);
    assert_eq!(app.notification_msg.as_deref(), Some("Report exported to rustdu_report.json!"));
    app.handle_key(Key::Char('l'));
    assert_eq!(app.notification_msg, None);
    app.export_report(false);
    assert_eq!(app.notification_msg.as_deref(), Some("Ошибка экспорта!"));
    app.export_report(true);
    assert_eq!(app.notification_msg.as_deref(), Some("Отчет успешно экспортирован в rustdu_report.json!"));
    app.lang = Language::English;
    app.export_report(false);
    assert_eq!(app.notification_msg.as_deref(), Some("Export failed!"));
}

#[test]
fn sort_is_stable() {
    let v = vec![entry("x", 5, false, None), entry("y", 9, false, None), entry("z", 5, false, None), entry("w", 9, false, None)];
    let s = sort_entries(&v, SortMode::Size);
    let n: Vec<&str> = s.iter().map(|e| e.name.as_str()).collect();
    assert_eq!(n, vec!["y", "w", "x", "z"]);
    let m = sort_entries(&v, SortMode::Modified);
    let n: Vec<&str> = m.iter().map(|e| e.name.as_str()).collect();
    assert_eq!(n, vec!["x", "y", "z", "w"]);
}

#[test]
fn sort_by_name_uses_code_point_order() {
    let v = vec![entry("é", 1, false, None), entry("z", 1, false, None), entry("Z", 1, false, None), entry("ab", 1, false, None), entry("a", 1, false, None)];
    let s = sort_entries(&v, SortMode::Name);
    let n: Vec<&str> = s.iter().map(|e| e.name.as_str()).collect();
    let mut expected: Vec<&str> = v.iter().map(|e| e.name.as_str()).collect();
    expected.sort();
    assert_eq!(n, expected);
}

#[test]
fn text_helpers() {
    assert!(starts_with_dot(".git"));
    assert!(!starts_with_dot("git"));
    assert!(!starts_with_dot(""));
    assert!(contains_str("hello", "ll"));
    assert!(contains_str("hello", ""));
    assert!(!contains_str("hello", "hellos"));
    assert!(!contains_str("", "a"));
}

#[test]
fn filter_lowercases_beyond_ascii() {
    let (mut app, _) = App::new("/home".to_string(), None, None, Config::default());
    let entries = vec![entry("Äpfel", 5, false, None), entry("banana", 3, false, None)];
    assert!(app.poll_scanner(&vec![ScanMessage::Finished { entries, total_size: 8 }]));
    app.handle_key(Key::Char('/'));
    assert_eq!(app.mode, AppMode::Filter);
    app.handle_key(Key::Char('Ä'));
    assert_eq!(names(&app), vec!["Äpfel"]);
    app.handle_key(Key::Backspace);
    app.handle_key(Key::Char('ä'));
    assert_eq!(names(&app), vec!["Äpfel"]);
}

#[test]
fn colors_by_size() {
    const MB: u64 = 1024 * 1024;
    assert_eq!(color_for_size(0), SizeColor::Gray);
    assert_eq!(color_for_size(MB - 1), SizeColor::Gray);
    assert_eq!(color_for_size(MB), SizeColor::Green);
    assert_eq!(color_for_size(10 * MB), SizeColor::LightBlue);
    assert_eq!(color_for_size(100 * MB), SizeColor::Yellow);
    assert_eq!(color_for_size(1024 * MB - 1), SizeColor::Yellow);
    assert_eq!(color_for_size(1024 * MB), SizeColor::Red);
}

#[test]
fn size_units() {
    assert_eq!(size_unit(0), SizeUnit::Bytes);
    assert_eq!(size_unit(1023), SizeUnit::Bytes);
    assert_eq!(size_unit(1024), SizeUnit::Kibibytes);
    assert_eq!(size_unit(1024 * 1024), SizeUnit::Mebibytes);
    assert_eq!(size_unit(1024 * 1024 * 1024 * 5), SizeUnit::Gibibytes);
}

#[test]
fn status_line_follows_mode_and_language() {
    let mut app = loaded(None);
    assert_eq!(app.status_line(), "?  — all keybindings and legend   |   q  — quit");
    app.handle_key(Key::Char('g'));
    app.handle_key(Key::Char('/'));
    assert_eq!(app.status_line(), "Enter path: /");
    app.handle_key(Key::Esc);
    app.handle_key(Key::Char('l'));
    app.handle_key(Key::Char('/'));
    app.handle_key(Key::Char('x'));
    assert_eq!(app.status_line(), "Фильтр: x");
    app.handle_key(Key::Enter);
    app.handle_key(Key::Char('d'));
    assert_eq!(app.status_line(), "Удалить выбранные элементы? (y - да, n - нет)");
    app.export_report(false);
    assert_eq!(app.status_line(), "Ошибка экспорта!");
}

#[test]
fn home_and_end_jump_to_first_and_last_row() {
    let mut app = loaded(None);
    app.handle_key(Key::Down);
    app.handle_key(Key::End);
    assert_eq!(app.selected, Some(3));
    app.handle_key(Key::Home);
    assert_eq!(app.selected, Some(0));
}

#[test]
fn escape_clears_the_filter() {
    let mut app = loaded(None);
    app.handle_key(Key::Char('/'));
    app.handle_key(Key::Char('x'));
    assert_eq!(names(&app), vec!["b.txt", "a.txt"]);
    app.handle_key(Key::Esc);
    assert_eq!(app.mode, AppMode::Browse);
    assert_eq!(app.filter_query, "");
    assert_eq!(names(&app), vec!["Docs", "music", "b.txt", "a.txt"]);
    app.handle_key(Key::Char('/'));
    app.handle_key(Key::Char('x'));
    app.handle_key(Key::Enter);
    assert_eq!(app.filter_query, "x");
    assert_eq!(names(&app), vec!["b.txt", "a.txt"]);
}

#[test]
fn any_key_closes_the_plot() {
    let mut app = loaded(None);
    app.handle_key(Key::Char('p'));
    assert_eq!(app.mode, AppMode::Plot);
    assert!(matches!(app.handle_key(Key::Char('l')), Command::Nothing));
    assert_eq!(app.mode, AppMode::Browse);
    assert_eq!(app.lang, Language::Russian);
    app.handle_key(Key::Char('p'));
    assert_eq!(app.mode, AppMode::Plot);
    app.handle_key(Key::Char('x'));
    assert_eq!(app.mode, AppMode::Browse);
    assert_eq!(app.lang, Language::Russian);
}

#[test]
fn longer_ascii_query_never_adds_rows() {
    let mut app = loaded(None);
    app.handle_key(Key::Char('/'));
    let mut before = names(&app);
    for c in "TXT".chars() {
        app.handle_key(Key::Char(c));
        let now = names(&app);
        assert!(now.iter().all(|n| before.contains(n)));
        before = now;
    }
    assert_eq!(before, vec!["b.txt", "a.txt"]);
}

#[test]
fn popup_geometry() {
    let p = centered_popup(100, 30, 70, 8);
    assert_eq!((p.x, p.y, p.width, p.height), (15, 11, 70, 8));
    let q = centered_popup(50, 5, 70, 8);
    assert_eq!((q.x, q.y, q.width, q.height), (0, 0, 50, 5));
    assert_eq!(help_popup_size(100, 40), (78, 28));
    assert_eq!(help_popup_size(40, 10), (38, 8));
    assert_eq!(help_popup_size(1, 1), (0, 0));
    assert_eq!(help_max_scroll(60, 28), 34);
    assert_eq!(help_max_scroll(10, 28), 0);
    assert_eq!(help_position(0, 0), None);
    assert_eq!(help_position(3, 34), Some((4, 35)));
    assert_eq!(help_position(u16::MAX, u16::MAX), Some((65536, 65536)));
}

#[test]
fn plot_charts_the_largest_entries() {
    let mut app = loaded(None);
    app.handle_key(Key::Char('n'));
    let top = largest_entries(&app.raw_entries, 2);
    let n: Vec<&str> = top.iter().map(|e| e.name.as_str()).collect();
    assert_eq!(n, vec!["Docs", "music"]);
    assert_eq!(largest_entries(&app.raw_entries, 8).len(), 5);
}

#[test]
fn backspace_goes_to_the_parent_directory() {
    let mut app = loaded(None);
    app.marked_items.insert("a".to_string());
    app.filter_query = "x".to_string();
    assert!(matches!(app.handle_key(Key::Backspace), Command::GoToParent));
    let req = app.go_to_parent().expect("/home has a parent");
    assert_eq!(app.current_path, "/");
    assert_eq!(req.path, "/");
    assert!(app.loading);
    assert!(app.filter_query.is_empty());
    assert!(app.marked_items.is_empty());
    assert!(app.go_to_parent().is_none());
    assert_eq!(app.current_path, "/");
}

#[test]
fn empty_path_has_no_parent() {
    let (mut app, _) = App::new(String::new(), None, None, Config::default());
    assert!(app.go_to_parent().is_none());
    assert_eq!(app.current_path, "");
}

fn up_from(path: &str) -> Option<String> {
    let (mut app, _) = App::new(path.to_string(), None, None, Config::default());
    app.go_to_parent().map(|req| {
        assert_eq!(req.path, app.current_path);
        app.current_path.clone()
    })
}

#[test]
fn backspace_from_the_working_directory_goes_up() {
    assert_eq!(up_from(".").as_deref(), Some(".."));
    assert_eq!(up_from("..").as_deref(), Some("../.."));
    assert_eq!(up_from("../").as_deref(), Some("../.."));
    assert_eq!(up_from("a/..").as_deref(), Some("a/../.."));
    assert_eq!(up_from("foo").as_deref(), Some("foo/.."));
    assert_eq!(up_from("foo/bar").as_deref(), Some("foo"));
    assert_eq!(up_from("/home/user").as_deref(), Some("/home"));
    assert_eq!(up_from("/").as_deref(), None);
}

#[test]
fn parent_targets_for_given_parents() {
    let s = |x: &str| x.to_string();
    assert_eq!(parent_target_of(&s("."), Some(s(""))), Some(s("..")));
    assert_eq!(parent_target_of(&s("x/"), Some(s(""))), Some(s("x/..")));
    assert_eq!(parent_target_of(&s("/a/b"), Some(s("/a"))), Some(s("/a")));
    assert_eq!(parent_target_of(&s("/a/.."), Some(s("/a"))), Some(s("/a/../..")));
    assert_eq!(parent_target_of(&s("/"), None), None);
    assert!(ends_with_dotdot(&s("..//")));
    assert!(ends_with_dotdot(&s("/x/..")));
    assert!(!ends_with_dotdot(&s("/x/a..")));
    assert!(!ends_with_dotdot(&s(".")));
}

#[test]
fn backspace_from_nested_and_absolute_paths() {
    assert_eq!(up_from("./a/b").as_deref(), Some("./a"));
    assert_eq!(up_from("/h").as_deref(), Some("/"));
    assert_eq!(up_from("/home/u/x").as_deref(), Some("/home/u"));
}

#[test]
fn space_twice_through_handle_browse_restores_marks() {
    let mut app = loaded(None);
    let first = names(&app)[0].clone();
    app.handle_browse(Key::Char(' '));
    assert!(app.marked_items.contains(&first));
    app.handle_browse(Key::Char(' '));
    assert!(app.marked_items.is_empty());
    app.handle_browse(Key::Down);
    app.handle_browse(Key::Up);
    assert_eq!(app.selected, Some(0));
}
